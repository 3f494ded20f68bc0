//! Missions: a question set plus the sources to answer it from. A run ingests, resolves, enriches,
//! answers each question from the graph, and writes a sourced brief with an export of the graph
//! beside it.

use vstd::prelude::*;
use vstd::string::*;

use crate::context::{live, live_entities};
use crate::double::Double;
use crate::models::{listed, rows, EdgeModel, EntityModel, RawItem, RawModel, WmEdge};
use crate::order::{ints, positions, rank_descending, ranking, sort_texts, sorted_texts};
use crate::resolve::{
    corroborating, corroborating_items, count_one, ingest_item_as, ingested, is_known, item_hash,
    one_more,
};
use crate::table::{arrange, arranged, marked_places, places};
use crate::text::{
    decimal, decimal_of, flat, flatten, join, joined, opt_copy, opt_view, str_eq, views,
};
use crate::watch::{find_lines, first, line_text, new_lines, write_line, LineModel};
use crate::world::{are_stamps, is_stamp, stamp, Stamp, StampModel, World, WorldModel};

verus! {

/// A question set and the sources to answer it from.
#[derive(Debug)]
pub struct Mission {
    pub name: String,
    pub description: String,
    /// Who the mission is about; kept in the brief as the standing scope statement.
    pub target_class: String,
    pub rss: Vec<String>,
    pub gdelt: Vec<String>,
    pub questions: Vec<String>,
    pub as_of: Option<String>,
}

/// How a mission is run.
#[derive(Debug)]
pub struct RunOptions {
    pub skip_ingest: bool,
    pub skip_enrich: bool,
    pub enrich_limit: usize,
    pub out_dir: Option<String>,
}

/// How a run went.
#[derive(Debug)]
pub struct MissionReport {
    pub new_items: usize,
    pub resolved_items: usize,
    pub enriched_items: usize,
    pub enrich_errors: usize,
    pub answers: usize,
    pub brief_path: String,
    pub graph_path: String,
}

impl Default for MissionReport {
    fn default() -> (r: Self)
        ensures
            r.new_items == 0,
            r.resolved_items == 0,
            r.enriched_items == 0,
            r.enrich_errors == 0,
            r.answers == 0,
            r.brief_path@ == Seq::<char>::empty(),
            r.graph_path@ == Seq::<char>::empty(),
    {
        MissionReport {
            new_items: 0,
            resolved_items: 0,
            enriched_items: 0,
            enrich_errors: 0,
            answers: 0,
            brief_path: String::new(),
            graph_path: String::new(),
        }
    }
}

/// Where a run writes: where it is told to, else in a directory of the mission's name.
pub fn out_dir(mission: &Mission, opts: &RunOptions) -> (r: String)
    ensures
        r@ == match opt_view(opts.out_dir) {
            Some(d) => d,
            None => "missions/"@ + mission.name@,
        },
{
    match opt_copy(&opts.out_dir) {
        Some(d) => d,
        None => {
            let mut d = "missions/".to_owned();
            d.append(mission.name.as_str());
            d
        },
    }
}

// ---------------------------------------------------------------------------------------------
// Ingestion

/// The world after the items were offered, one after the other, and how many of them were new.
pub open spec fn all_ingested(
    w: WorldModel,
    items: Seq<RawModel>,
    stamps: Seq<StampModel>,
) -> (WorldModel, usize)
    decreases items.len(),
{
    if items.len() == 0 {
        (w, 0)
    } else {
        let (before, n) = all_ingested(w, items.drop_last(), stamps);
        let item = items.last();
        (
            ingested(before, item, stamps[items.len() - 1]),
            if is_known(before.source_items, item_hash(item)) {
                n
            } else {
                one_more(n)
            },
        )
    }
}

/// Offers the items of an adapter; returns how many of them were new.
pub fn ingest_items_as(world: &mut World, items: &Vec<RawItem>, stamps: Vec<Stamp>) -> (r: usize)
    requires
        stamps@.len() == items@.len(),
    ensures
        (final(world)@, r) == all_ingested(old(world)@, rows(items@), rows(stamps@)),
{
    let ghost w = world@;
    let ghost all = rows(items@);
    let ghost sv = rows(stamps@);
    let mut n: usize = 0;
    let mut i: usize = 0;
    assert(all.take(0) =~= seq![]);
    while i < items.len()
        invariant
            i <= items@.len(),
            stamps@.len() == items@.len(),
            all == rows(items@),
            sv == rows(stamps@),
            (world@, n) == all_ingested(w, all.take(i as int), sv),
        decreases items.len() - i,
    {
        assert(all.take(i + 1).drop_last() =~= all.take(i as int));
        assert(all.take(i + 1).last() == items@[i as int]@);
        assert(sv[i as int] == stamps@[i as int]@);
        let s = stamps[i].dup();
        if ingest_item_as(world, &items[i], s).is_some() {
            n = count_one(n);
        }
        i += 1;
    }
    assert(all.take(i as int) =~= all);
    n
}

/// Offers the items of an adapter under fresh ids; returns how many of them were new.
pub fn ingest_items(world: &mut World, items: &Vec<RawItem>) -> (r: usize)
    ensures
        exists|stamps: Seq<StampModel>|
            stamps.len() == items@.len() && are_stamps(stamps) && (final(world)@, r)
                == #[trigger] all_ingested(old(world)@, rows(items@), stamps),
{
    let mut stamps: Vec<Stamp> = Vec::new();
    let mut i: usize = 0;
    while i < items.len()
        invariant
            i <= items@.len(),
            stamps@.len() == i,
            forall|k: int| 0 <= k < i ==> is_stamp((#[trigger] stamps@[k])@),
        decreases items.len() - i,
    {
        stamps.push(stamp());
        i += 1;
    }
    let ghost sv = rows(stamps@);
    assert forall|k: int| 0 <= k < sv.len() implies is_stamp(#[trigger] sv[k]) by {
        assert(is_stamp(stamps@[k]@));
    }
    let r = ingest_items_as(world, items, stamps);
    assert((world@, r) == all_ingested(old(world)@, rows(items@), sv));
    r
}

// ---------------------------------------------------------------------------------------------
// Counts

/// How often a text occurs in a list.
pub open spec fn occurrences(list: Seq<Seq<char>>, x: Seq<char>) -> nat
    decreases list.len(),
{
    if list.len() == 0 {
        0
    } else {
        occurrences(list.drop_last(), x) + if list.last() == x {
            1nat
        } else {
            0
        }
    }
}

/// The texts of a list with how often they occur, the most frequent first; those that are equally
/// frequent are in the order of the texts.
pub open spec fn grouped(list: Seq<Seq<char>>) -> Seq<(Seq<char>, nat)> {
    let names = sorted_texts(list);
    let order = ranking(Seq::new(names.len(), |i: int| occurrences(list, names[i]) as int));
    Seq::new(order.len(), |i: int| (names[order[i]], occurrences(list, names[order[i]])))
}

fn count_text(list: &Vec<String>, x: &str) -> (r: usize)
    ensures
        r == occurrences(views(list@), x@),
{
    let ghost all = views(list@);
    let mut n: usize = 0;
    let mut i: usize = 0;
    assert(all.take(0) =~= seq![]);
    while i < list.len()
        invariant
            i <= list@.len(),
            all == views(list@),
            n <= i,
            n == occurrences(all.take(i as int), x@),
        decreases list.len() - i,
    {
        assert(all.take(i + 1).drop_last() =~= all.take(i as int));
        assert(all.take(i + 1).last() == list@[i as int]@);
        if str_eq(list[i].as_str(), x) {
            n += 1;
        }
        i += 1;
    }
    assert(all.take(i as int) =~= all);
    n
}

/// What a list of counted texts holds.
pub open spec fn counted(v: Seq<(String, usize)>) -> Seq<(Seq<char>, nat)> {
    Seq::new(v.len(), |i: int| (v[i].0@, v[i].1 as nat))
}

/// Groups a list of texts, the most frequent first.
pub fn group(list: &Vec<String>) -> (r: Vec<(String, usize)>)
    ensures
        counted(r@) == grouped(views(list@)),
{
    let names = sort_texts(list);
    let ghost all = views(list@);
    let ghost nv = views(names@);
    let mut counts: Vec<usize> = Vec::new();
    let mut keys: Vec<i128> = Vec::new();
    let mut i: usize = 0;
    while i < names.len()
        invariant
            i <= names@.len(),
            all == views(list@),
            nv == views(names@),
            counts@.len() == i,
            keys@.len() == i,
            forall|j: int| 0 <= j < i ==> #[trigger] counts@[j] == occurrences(all, nv[j]),
            forall|j: int| 0 <= j < i ==> #[trigger] keys@[j] == occurrences(all, nv[j]),
        decreases names.len() - i,
    {
        let n = count_text(list, names[i].as_str());
        counts.push(n);
        keys.push(n as i128);
        i += 1;
    }
    assert(ints(keys@) =~= Seq::new(nv.len(), |i: int| occurrences(all, nv[i]) as int));
    let order = rank_descending(&keys);
    let ghost ov = positions(order@);
    let mut out: Vec<(String, usize)> = Vec::new();
    let mut k: usize = 0;
    while k < order.len()
        invariant
            k <= order@.len(),
            ov == positions(order@),
            nv == views(names@),
            counts@.len() == names@.len(),
            forall|j: int| 0 <= j < order@.len() ==> #[trigger] order@[j] < names@.len(),
            forall|j: int|
                0 <= j < names@.len() ==> #[trigger] counts@[j] == occurrences(all, nv[j]),
            out@.len() == k,
            forall|j: int|
                0 <= j < k ==> ((#[trigger] out@[j]).0@, out@[j].1 as nat) == (
                    nv[ov[j]],
                    occurrences(all, nv[ov[j]]),
                ),
        decreases order.len() - k,
    {
        let at = order[k];
        assert(ov[k as int] == at);
        assert(counts@[at as int] == occurrences(all, nv[at as int]));
        out.push((names[at].clone(), counts[at]));
        k += 1;
    }
    assert(counted(out@) =~= grouped(all));
    out
}

/// The license classes of the items.
pub open spec fn item_licenses(w: WorldModel) -> Seq<Seq<char>> {
    Seq::new(w.source_items.len(), |i: int| w.source_items[i].license_class)
}

/// The license classes of the items, each with how many there are, the most frequent first.
pub fn licenses(world: &World) -> (r: Vec<(String, usize)>)
    ensures
        counted(r@) == grouped(item_licenses(world@)),
{
    let ghost goal = item_licenses(world@);
    let mut list: Vec<String> = Vec::new();
    let mut i: usize = 0;
    while i < world.source_items.len()
        invariant
            i <= world.source_items@.len(),
            goal == item_licenses(world@),
            list@.len() == i,
            forall|j: int| 0 <= j < i ==> (#[trigger] list@[j])@ == goal[j],
        decreases world.source_items.len() - i,
    {
        list.push(world.source_items[i].license_class.clone());
        i += 1;
    }
    assert(views(list@) =~= goal);
    group(&list)
}

/// The types of the entities.
pub open spec fn entity_types(es: Seq<EntityModel>) -> Seq<Seq<char>> {
    Seq::new(es.len(), |i: int| es[i].entity_type)
}

/// The types of the live entities, each with how many there are, the most frequent first.
pub fn live_types(world: &World) -> (r: Vec<(String, usize)>)
    ensures
        counted(r@) == grouped(entity_types(live(world@.entities))),
{
    let es = live_entities(world);
    let ghost goal = entity_types(rows(es@));
    let mut list: Vec<String> = Vec::new();
    let mut i: usize = 0;
    while i < es.len()
        invariant
            i <= es@.len(),
            goal == entity_types(rows(es@)),
            list@.len() == i,
            forall|j: int| 0 <= j < i ==> (#[trigger] list@[j])@ == goal[j],
        decreases es.len() - i,
    {
        list.push(es[i].entity_type.clone());
        i += 1;
    }
    assert(views(list@) =~= goal);
    group(&list)
}

/// The relations that were not superseded.
pub open spec fn valid_edges(es: Seq<EdgeModel>) -> Seq<EdgeModel>
    decreases es.len(),
{
    if es.len() == 0 {
        seq![]
    } else if es.last().invalid_at is None {
        valid_edges(es.drop_last()).push(es.last())
    } else {
        valid_edges(es.drop_last())
    }
}

pub fn current_edges(world: &World) -> (r: Vec<WmEdge>)
    ensures
        rows(r@) == valid_edges(world@.edges),
{
    let ghost all = world@.edges;
    let mut out: Vec<WmEdge> = Vec::new();
    let mut i: usize = 0;
    assert(all.take(0) =~= seq![]);
    assert(rows(out@) =~= seq![]);
    while i < world.edges.len()
        invariant
            i <= world.edges@.len(),
            all == rows(world.edges@),
            rows(out@) == valid_edges(all.take(i as int)),
        decreases world.edges.len() - i,
    {
        assert(all.take(i + 1).drop_last() =~= all.take(i as int));
        assert(all.take(i + 1).last() == world.edges@[i as int]@);
        let ghost done = rows(out@);
        if world.edges[i].invalid_at.is_none() {
            out.push(world.edges[i].dup());
            assert(rows(out@) =~= done.push(all[i as int]));
        }
        i += 1;
    }
    assert(all.take(i as int) =~= all);
    out
}

/// How many of the relations are typed.
pub open spec fn typed_count(es: Seq<EdgeModel>) -> nat
    decreases es.len(),
{
    if es.len() == 0 {
        0
    } else {
        typed_count(es.drop_last()) + if es.last().edge_type != "mentioned_with"@ {
            1nat
        } else {
            0
        }
    }
}

fn count_typed(es: &Vec<WmEdge>) -> (r: usize)
    ensures
        r == typed_count(rows(es@)),
{
    let ghost all = rows(es@);
    let mut n: usize = 0;
    let mut i: usize = 0;
    assert(all.take(0) =~= seq![]);
    while i < es.len()
        invariant
            i <= es@.len(),
            all == rows(es@),
            n <= i,
            n == typed_count(all.take(i as int)),
        decreases es.len() - i,
    {
        assert(all.take(i + 1).drop_last() =~= all.take(i as int));
        assert(all.take(i + 1).last() == es@[i as int]@);
        if !str_eq(es[i].edge_type.as_str(), "mentioned_with") {
            n += 1;
        }
        i += 1;
    }
    assert(all.take(i as int) =~= all);
    n
}

// ---------------------------------------------------------------------------------------------
// The brief

/// A counted text, the count first.
pub open spec fn count_first(c: (Seq<char>, nat)) -> Seq<char> {
    decimal(c.1) + " "@ + c.0
}

/// What the corpus and the graph hold.
pub open spec fn corpus_text(w: WorldModel) -> Seq<char> {
    let valid = valid_edges(w.edges);
    "**Corpus:** "@ + decimal(w.source_items.len()) + " source items ("@ + joined(
        grouped(item_licenses(w)).map_values(|c: (Seq<char>, nat)| count_first(c)),
        ", "@,
    ) + "); **graph:** "@ + decimal(live(w.entities).len()) + " live entities, "@ + decimal(
        valid.len(),
    ) + " valid relations ("@ + decimal(typed_count(valid)) + " typed).\n\n"@
}

/// What the brief promises of every claim.
pub const CITATION_NOTE: &'static str = "Every claim below cites its source by number; the graph slice used for each answer is noted. Answers come only from the resolved graph — if the sources did not support a claim, the answer says so.\n\n";

/// What the brief is on.
pub open spec fn opening_text(m: Mission, w: WorldModel, generated: Seq<char>) -> Seq<char> {
    "# "@ + m.name@ + " — intelligence brief\n\nGenerated "@ + generated
        + " by `enargeia mission run`. "@ + m.description@ + "\n\n"@ + (
    if m.target_class@.len() == 0 {
        seq![]
    } else {
        "**Scope:** "@ + m.target_class@ + "\n\n"@
    }) + corpus_text(w) + CITATION_NOTE@
}

/// A question with its answer, under its number.
pub open spec fn answer_text(i: int, question: Seq<char>, answer: Seq<char>) -> Seq<char> {
    "## "@ + decimal((i + 1) as nat) + ". "@ + question + "\n\n"@ + answer + "\n\n"@
}

/// A counted text, the count last.
pub open spec fn count_last(c: (Seq<char>, nat)) -> Seq<char> {
    "- "@ + c.0 + ": "@ + decimal(c.1) + "\n"@
}

/// How many items corroborate the entity.
pub open spec fn corroboration(w: WorldModel, e: EntityModel) -> int {
    corroborating(w.candidates, e.id).len() as int
}

/// How many entities and how many relations the appendices list.
pub const TOP_ENTITIES: usize = 25;

pub const TOP_EDGES: usize = 60;

/// The positions of the corroborated entities, the most corroborated first, at most so many.
pub open spec fn top_entities(w: WorldModel) -> Seq<int> {
    let at = places(w.entities.len() as int, |i: int| corroboration(w, w.entities[i]) > 0);
    first(
        arranged(
            at,
            ranking(Seq::new(at.len(), |k: int| corroboration(w, w.entities[at[k]]))),
        ),
        TOP_ENTITIES as int,
    )
}

/// The point on a corroborated entity.
pub open spec fn top_line(w: WorldModel, e: EntityModel) -> Seq<char> {
    "- "@ + e.canonical_name + " ["@ + e.entity_type + "] — "@ + decimal(
        corroborating(w.candidates, e.id).len(),
    ) + "\n"@
}

/// The point on a current typed relation.
pub open spec fn relation_point(l: LineModel) -> Seq<char> {
    "- "@ + line_text(l) + "\n"@
}

/// What the graph knows: entities by type, the most corroborated ones, and the current typed
/// relations (those that are new since ever).
pub open spec fn appendix_text(w: WorldModel) -> Seq<char> {
    let top = top_entities(w);
    "## Appendix A — entity counts by type\n\n"@ + flat(
        grouped(entity_types(live(w.entities))).map_values(
            |c: (Seq<char>, nat)| count_last(c),
        ),
    ) + "\n## Appendix B — most corroborated entities (distinct sources)\n\n"@ + flat(
        Seq::new(top.len(), |k: int| top_line(w, w.entities[top[k]])),
    ) + "\n## Appendix C — typed relations (current)\n\n"@ + flat(
        first(new_lines(w, seq![]), TOP_EDGES as int).map_values(
            |l: LineModel| relation_point(l),
        ),
    )
}

/// The brief of a mission, given the answers to its questions.
pub open spec fn brief_text(
    m: Mission,
    w: WorldModel,
    generated: Seq<char>,
    answers: Seq<Seq<char>>,
) -> Seq<char> {
    opening_text(m, w, generated) + flat(
        Seq::new(answers.len(), |i: int| answer_text(i, m.questions@[i]@, answers[i])),
    ) + appendix_text(w)
}

fn write_corpus(world: &World) -> (r: String)
    ensures
        r@ == corpus_text(world@),
{
    let lic = licenses(world);
    let ghost lv = counted(lic@);
    let ghost goal = lv.map_values(|c: (Seq<char>, nat)| count_first(c));
    let mut parts: Vec<String> = Vec::new();
    let mut i: usize = 0;
    while i < lic.len()
        invariant
            i <= lic@.len(),
            lv == counted(lic@),
            goal == lv.map_values(|c: (Seq<char>, nat)| count_first(c)),
            parts@.len() == i,
            forall|j: int| 0 <= j < i ==> (#[trigger] parts@[j])@ == goal[j],
        decreases lic.len() - i,
    {
        let mut p = decimal_of(lic[i].1 as u64);
        p.append(" ");
        p.append(lic[i].0.as_str());
        assert(goal[i as int] == count_first(lv[i as int]));
        parts.push(p);
        i += 1;
    }
    assert(views(parts@) =~= goal);
    let es = live_entities(world);
    let valid = current_edges(world);
    assert(rows(es@).len() == es@.len());
    assert(rows(valid@).len() == valid@.len());
    assert(world@.source_items.len() == world.source_items@.len());
    let mut m = "**Corpus:** ".to_owned();
    m.append(decimal_of(world.source_items.len() as u64).as_str());
    m.append(" source items (");
    m.append(join(&parts, ", ").as_str());
    m.append("); **graph:** ");
    m.append(decimal_of(es.len() as u64).as_str());
    m.append(" live entities, ");
    m.append(decimal_of(valid.len() as u64).as_str());
    m.append(" valid relations (");
    m.append(decimal_of(count_typed(&valid) as u64).as_str());
    m.append(" typed).\n\n");
    m
}

fn write_opening(mission: &Mission, world: &World, generated: &str) -> (r: String)
    ensures
        r@ == opening_text(*mission, world@, generated@),
{
    let mut m = "# ".to_owned();
    m.append(mission.name.as_str());
    m.append(" — intelligence brief\n\nGenerated ");
    m.append(generated);
    m.append(" by `enargeia mission run`. ");
    m.append(mission.description.as_str());
    m.append("\n\n");
    let mut scope = String::new();
    if !mission.target_class.as_str().is_empty() {
        scope = "**Scope:** ".to_owned();
        scope.append(mission.target_class.as_str());
        scope.append("\n\n");
    }
    m.append(scope.as_str());
    m.append(write_corpus(world).as_str());
    m.append(CITATION_NOTE);
    m
}

fn find_top(world: &World) -> (r: Vec<usize>)
    ensures
        positions(r@) == top_entities(world@),
        forall|k: int| 0 <= k < r@.len() ==> #[trigger] r@[k] < world.entities@.len(),
{
    let ghost w = world@;
    let ghost fits = |i: int| corroboration(w, w.entities[i]) > 0;
    let mut marks: Vec<bool> = Vec::new();
    let mut sizes: Vec<usize> = Vec::new();
    let mut i: usize = 0;
    while i < world.entities.len()
        invariant
            i <= world.entities@.len(),
            w == world@,
            fits == (|i: int| corroboration(w, w.entities[i]) > 0),
            marks@.len() == i,
            sizes@.len() == i,
            forall|j: int| 0 <= j < i ==> #[trigger] marks@[j] == fits(j),
            forall|j: int|
                0 <= j < i ==> #[trigger] sizes@[j] == corroboration(w, w.entities[j]),
        decreases world.entities.len() - i,
    {
        let items = corroborating_items(world, world.entities[i].id.as_str());
        assert(views(items@).len() == items@.len());
        assert(w.entities[i as int] == world.entities@[i as int]@);
        marks.push(items.len() > 0);
        sizes.push(items.len());
        i += 1;
    }
    let at = marked_places(&marks, Ghost(fits));
    let ghost av = positions(at@);
    let mut keys: Vec<i128> = Vec::new();
    let mut k: usize = 0;
    while k < at.len()
        invariant
            k <= at@.len(),
            av == positions(at@),
            w == world@,
            sizes@.len() == world.entities@.len(),
            forall|j: int| 0 <= j < at@.len() ==> #[trigger] at@[j] < world.entities@.len(),
            forall|j: int|
                0 <= j < sizes@.len() ==> #[trigger] sizes@[j] == corroboration(
                    w,
                    w.entities[j],
                ),
            keys@.len() == k,
            forall|j: int|
                0 <= j < k ==> #[trigger] keys@[j] == corroboration(w, w.entities[av[j]]),
        decreases at.len() - k,
    {
        assert(av[k as int] == at@[k as int]);
        assert(sizes@[at@[k as int] as int] == corroboration(w, w.entities[av[k as int]]));
        keys.push(sizes[at[k]] as i128);
        k += 1;
    }
    assert(ints(keys@) =~= Seq::new(av.len(), |k: int| corroboration(w, w.entities[av[k]])));
    let order = rank_descending(&keys);
    let mut r = arrange(&at, &order);
    let ghost full = positions(r@);
    assert(full.len() == r@.len());
    proof {
        assert forall|k: int| 0 <= k < r@.len() implies (#[trigger] r@[k])
            < world.entities@.len() by {
            assert(at@.contains(r@[k]));
        }
    }
    if r.len() > TOP_ENTITIES {
        let ghost all = r@;
        r.truncate(TOP_ENTITIES);
        assert(positions(r@) =~= full.take(TOP_ENTITIES as int));
        assert forall|k: int| 0 <= k < r@.len() implies (#[trigger] r@[k])
            < world.entities@.len() by {
            assert(r@[k] == all[k]);
        }
    }
    r
}

fn write_types(world: &World) -> (r: String)
    ensures
        r@ == flat(
            grouped(entity_types(live(world@.entities))).map_values(
                |c: (Seq<char>, nat)| count_last(c),
            ),
        ),
{
    let groups = live_types(world);
    let ghost gv = counted(groups@);
    let ghost goal = gv.map_values(|c: (Seq<char>, nat)| count_last(c));
    let mut out: Vec<String> = Vec::new();
    let mut i: usize = 0;
    while i < groups.len()
        invariant
            i <= groups@.len(),
            gv == counted(groups@),
            goal == gv.map_values(|c: (Seq<char>, nat)| count_last(c)),
            out@.len() == i,
            forall|j: int| 0 <= j < i ==> (#[trigger] out@[j])@ == goal[j],
        decreases groups.len() - i,
    {
        let mut m = "- ".to_owned();
        m.append(groups[i].0.as_str());
        m.append(": ");
        m.append(decimal_of(groups[i].1 as u64).as_str());
        m.append("\n");
        assert(goal[i as int] == count_last(gv[i as int]));
        out.push(m);
        i += 1;
    }
    assert(views(out@) =~= goal);
    flatten(&out)
}

fn write_top(world: &World) -> (r: String)
    ensures
        ({
            let top = top_entities(world@);
            r@ == flat(
                Seq::new(top.len(), |k: int| top_line(world@, world@.entities[top[k]])),
            )
        }),
{
    let at = find_top(world);
    let ghost w = world@;
    let ghost av = positions(at@);
    let ghost goal = Seq::new(av.len(), |k: int| top_line(w, w.entities[av[k]]));
    let mut out: Vec<String> = Vec::new();
    let mut k: usize = 0;
    while k < at.len()
        invariant
            k <= at@.len(),
            w == world@,
            av == positions(at@),
            forall|j: int| 0 <= j < at@.len() ==> #[trigger] at@[j] < world.entities@.len(),
            goal == Seq::new(av.len(), |k: int| top_line(w, w.entities[av[k]])),
            out@.len() == k,
            forall|j: int| 0 <= j < k ==> (#[trigger] out@[j])@ == goal[j],
        decreases at.len() - k,
    {
        assert(av[k as int] == at@[k as int]);
        let e = &world.entities[at[k]];
        assert(w.entities[av[k as int]] == e@);
        let items = corroborating_items(world, e.id.as_str());
        assert(views(items@).len() == items@.len());
        let mut m = "- ".to_owned();
        m.append(e.canonical_name.as_str());
        m.append(" [");
        m.append(e.entity_type.as_str());
        m.append("] — ");
        m.append(decimal_of(items.len() as u64).as_str());
        m.append("\n");
        out.push(m);
        k += 1;
    }
    assert(views(out@) =~= goal);
    flatten(&out)
}

fn write_current(world: &World) -> (r: String)
    ensures
        r@ == flat(
            first(new_lines(world@, seq![]), TOP_EDGES as int).map_values(
                |l: LineModel| relation_point(l),
            ),
        ),
{
    let since = String::new();
    let lines = find_lines(world, since.as_str());
    assert(since@ =~= seq![]);
    let ghost lv = rows(lines@);
    let ghost goal = first(lv, TOP_EDGES as int).map_values(|l: LineModel| relation_point(l));
    let n: usize = if lines.len() > TOP_EDGES {
        TOP_EDGES
    } else {
        lines.len()
    };
    assert(lv.len() == lines@.len());
    let mut out: Vec<String> = Vec::new();
    let mut i: usize = 0;
    while i < n
        invariant
            i <= n <= lines@.len(),
            n == goal.len(),
            lv == rows(lines@),
            goal == first(lv, TOP_EDGES as int).map_values(|l: LineModel| relation_point(l)),
            out@.len() == i,
            forall|j: int| 0 <= j < i ==> (#[trigger] out@[j])@ == goal[j],
        decreases n - i,
    {
        let mut m = "- ".to_owned();
        m.append(write_line(&lines[i]).as_str());
        m.append("\n");
        assert(goal[i as int] == relation_point(lines@[i as int]@));
        out.push(m);
        i += 1;
    }
    assert(views(out@) =~= goal);
    flatten(&out)
}

/// Writes the brief of a mission, given the answers to its questions.
pub fn brief(mission: &Mission, world: &World, generated: &str, answers: &Vec<String>) -> (r: String)
    requires
        answers@.len() == mission.questions@.len(),
    ensures
        r@ == brief_text(*mission, world@, generated@, views(answers@)),
{
    let ghost av = views(answers@);
    let ghost qs = mission.questions@;
    let ghost goal = Seq::new(av.len(), |i: int| answer_text(i, qs[i]@, av[i]));
    let mut out: Vec<String> = Vec::new();
    let mut i: usize = 0;
    while i < answers.len()
        invariant
            i <= answers@.len(),
            answers@.len() == mission.questions@.len(),
            av == views(answers@),
            qs == mission.questions@,
            goal == Seq::new(av.len(), |i: int| answer_text(i, qs[i]@, av[i])),
            out@.len() == i,
            forall|j: int| 0 <= j < i ==> (#[trigger] out@[j])@ == goal[j],
        decreases answers.len() - i,
    {
        let mut m = "## ".to_owned();
        m.append(decimal_of((i + 1) as u64).as_str());
        m.append(". ");
        m.append(mission.questions[i].as_str());
        m.append("\n\n");
        m.append(answers[i].as_str());
        m.append("\n\n");
        out.push(m);
        i += 1;
    }
    assert(views(out@) =~= goal);
    let mut m = write_opening(mission, world, generated);
    m.append(flatten(&out).as_str());
    let mut appendix = "## Appendix A — entity counts by type\n\n".to_owned();
    appendix.append(write_types(world).as_str());
    appendix.append("\n## Appendix B — most corroborated entities (distinct sources)\n\n");
    appendix.append(write_top(world).as_str());
    appendix.append("\n## Appendix C — typed relations (current)\n\n");
    appendix.append(write_current(world).as_str());
    m.append(appendix.as_str());
    m
}

// ---------------------------------------------------------------------------------------------
// The export

/// An entity of the export.
#[derive(Debug)]
pub struct ExportEntity {
    pub id: String,
    pub name: String,
    pub entity_type: String,
    pub aliases: Vec<String>,
    pub confidence: Double,
    pub is_live: bool,
}

#[verifier::ext_equal]
pub struct ExportEntityModel {
    pub id: Seq<char>,
    pub name: Seq<char>,
    pub entity_type: Seq<char>,
    pub aliases: Seq<Seq<char>>,
    pub confidence: Double,
    pub is_live: bool,
}

impl View for ExportEntity {
    type V = ExportEntityModel;

    open spec fn view(&self) -> ExportEntityModel {
        ExportEntityModel {
            id: self.id@,
            name: self.name@,
            entity_type: self.entity_type@,
            aliases: views(self.aliases@),
            confidence: self.confidence,
            is_live: self.is_live,
        }
    }
}

/// A relation of the export.
#[derive(Debug)]
pub struct ExportEdge {
    pub from: String,
    pub to: String,
    pub edge_type: String,
    pub weight: u64,
    pub valid_at: Option<String>,
    pub invalid_at: Option<String>,
    pub sources: Vec<String>,
}

#[verifier::ext_equal]
pub struct ExportEdgeModel {
    pub from: Seq<char>,
    pub to: Seq<char>,
    pub edge_type: Seq<char>,
    pub weight: u64,
    pub valid_at: Option<Seq<char>>,
    pub invalid_at: Option<Seq<char>>,
    pub sources: Seq<Seq<char>>,
}

impl View for ExportEdge {
    type V = ExportEdgeModel;

    open spec fn view(&self) -> ExportEdgeModel {
        ExportEdgeModel {
            from: self.from@,
            to: self.to@,
            edge_type: self.edge_type@,
            weight: self.weight,
            valid_at: opt_view(self.valid_at),
            invalid_at: opt_view(self.invalid_at),
            sources: views(self.sources@),
        }
    }
}

pub open spec fn exported_entity(e: EntityModel) -> ExportEntityModel {
    ExportEntityModel {
        id: e.id,
        name: e.canonical_name,
        entity_type: e.entity_type,
        aliases: listed(e.aliases),
        confidence: e.confidence,
        is_live: e.is_live,
    }
}

pub open spec fn exported_edge(e: EdgeModel) -> ExportEdgeModel {
    ExportEdgeModel {
        from: e.from_id,
        to: e.to_id,
        edge_type: e.edge_type,
        weight: e.weight,
        valid_at: e.valid_at,
        invalid_at: e.invalid_at,
        sources: listed(e.source_item_ids),
    }
}

/// The graph as it is exported: the live entities and the valid relations.
pub fn export(world: &World) -> (r: (Vec<ExportEntity>, Vec<ExportEdge>))
    ensures
        rows(r.0@) == live(world@.entities).map_values(|e: EntityModel| exported_entity(e)),
        rows(r.1@) == valid_edges(world@.edges).map_values(|e: EdgeModel| exported_edge(e)),
{
    let es = live_entities(world);
    let ghost eg = rows(es@).map_values(|e: EntityModel| exported_entity(e));
    let mut entities: Vec<ExportEntity> = Vec::new();
    let mut i: usize = 0;
    while i < es.len()
        invariant
            i <= es@.len(),
            eg == rows(es@).map_values(|e: EntityModel| exported_entity(e)),
            entities@.len() == i,
            forall|j: int| 0 <= j < i ==> (#[trigger] entities@[j])@ == eg[j],
        decreases es.len() - i,
    {
        let e = &es[i];
        entities.push(
            ExportEntity {
                id: e.id.clone(),
                name: e.canonical_name.clone(),
                entity_type: e.entity_type.clone(),
                aliases: e.alias_list(),
                confidence: e.confidence,
                is_live: e.is_live,
            },
        );
        i += 1;
    }
    assert(rows(entities@) =~= eg);
    let vs = current_edges(world);
    let ghost vg = rows(vs@).map_values(|e: EdgeModel| exported_edge(e));
    let mut edges: Vec<ExportEdge> = Vec::new();
    let mut k: usize = 0;
    while k < vs.len()
        invariant
            k <= vs@.len(),
            vg == rows(vs@).map_values(|e: EdgeModel| exported_edge(e)),
            edges@.len() == k,
            forall|j: int| 0 <= j < k ==> (#[trigger] edges@[j])@ == vg[j],
        decreases vs.len() - k,
    {
        let e = &vs[k];
        edges.push(
            ExportEdge {
                from: e.from_id.clone(),
                to: e.to_id.clone(),
                edge_type: e.edge_type.clone(),
                weight: e.weight,
                valid_at: opt_copy(&e.valid_at),
                invalid_at: opt_copy(&e.invalid_at),
                sources: e.source_ids(),
            },
        );
        k += 1;
    }
    assert(rows(edges@) =~= vg);
    (entities, edges)
}

} // verus!
