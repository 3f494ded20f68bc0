//! The provenance trace. For an entity: every mention that resolved to it (with source, tier, score
//! and feature breakdown), every relation with its validity window, and every human decision or
//! decorrelation that touched it. "Why do you believe this?" answered from data, not from a
//! summary.

use vstd::prelude::*;
use vstd::string::*;

use crate::block::{candidates_for, candidates_of};
use crate::context::{name_among, name_in};
use crate::double::{fixed, show_tenths, tenths};
use crate::matcher::{parts, MatchModel, MatchScore};
use crate::models::{
    listed, opt_match, rows, CandidateModel, EdgeModel, EntityModel, SourceModel, WmEdge, WmEntity,
    WmExtractionCandidate, WmSourceItem,
};
use crate::order::{
    ascending, ints, opt_views, positions, rank_ascending, rank_descending, ranking,
};
use crate::resolve::{candidate_of, find_candidate};
use crate::table::{arrange, arranged, marked_places, places};
use crate::text::{
    ascii_lower, chars_of, decimal, decimal_of, flat, flatten, join, joined,
    lemma_flat_append, lower_ascii, opt_view,
    quote, quoted, short_form, shorten, str_eq, string_of, views,
};
use crate::world::{
    entity_of, find_item, item_of, Decorrelation, DecorrelationModel, ReviewDecision, ReviewModel,
    World, WorldModel,
};

verus! {

// ---------------------------------------------------------------------------------------------
// Which entity

/// No entity matches.
#[derive(Debug)]
pub struct NoEntity {
    pub query: String,
}

impl NoEntity {
    pub fn message(&self) -> (r: String)
        ensures
            r@ == "no entity matches "@ + quoted(self.query@),
    {
        let mut m = "no entity matches ".to_owned();
        m.append(quote(self.query.as_str()).as_str());
        m
    }
}

/// The surest of the entities of that name, whatever the case of its ASCII letters, the first of
/// equals.
pub open spec fn surest_named(es: Seq<EntityModel>, name: Seq<char>) -> Option<EntityModel>
    decreases es.len(),
{
    if es.len() == 0 {
        None
    } else {
        let best = surest_named(es.drop_last(), name);
        let e = es.last();
        if ascii_lower(e.canonical_name) != ascii_lower(name) {
            best
        } else {
            match best {
                Some(b) => if e.confidence.rank() > b.confidence.rank() {
                    Some(e)
                } else {
                    Some(b)
                },
                None => Some(e),
            }
        }
    }
}

/// The entity that an id, an exact name or a similar name stands for.
pub open spec fn meant(w: WorldModel, query: Seq<char>) -> Option<EntityModel> {
    match entity_of(w.entities, query) {
        Some(e) => Some(e),
        None => match surest_named(w.entities, query) {
            Some(e) => Some(e),
            None => if candidates_of(w, query).len() > 0 {
                Some(candidates_of(w, query)[0])
            } else {
                None
            },
        },
    }
}

fn find_surest(es: &Vec<WmEntity>, name: &str) -> (r: Option<usize>)
    ensures
        match r {
            Some(i) => i < es@.len() && surest_named(rows(es@), name@) == Some(es@[i as int]@),
            None => surest_named(rows(es@), name@) is None,
        },
{
    let lower = string_of(&lower_ascii(&chars_of(name)));
    let ghost all = rows(es@);
    let mut best: Option<usize> = None;
    let mut i: usize = 0;
    assert(all.take(0) =~= seq![]);
    while i < es.len()
        invariant
            i <= es@.len(),
            all == rows(es@),
            lower@ == ascii_lower(name@),
            match best {
                Some(b) => b < i && surest_named(all.take(i as int), name@) == Some(
                    es@[b as int]@,
                ),
                None => surest_named(all.take(i as int), name@) is None,
            },
        decreases es.len() - i,
    {
        assert(all.take(i + 1).drop_last() =~= all.take(i as int));
        assert(all.take(i + 1).last() == es@[i as int]@);
        let mine = string_of(&lower_ascii(&chars_of(es[i].canonical_name.as_str())));
        if str_eq(mine.as_str(), lower.as_str()) {
            best = match best {
                Some(b) => if es[i].confidence.above(es[b].confidence) {
                    Some(i)
                } else {
                    Some(b)
                },
                None => Some(i),
            };
        }
        i += 1;
    }
    assert(all.take(i as int) =~= all);
    best
}

/// Resolves an id, an exact name, or a similar name to an entity.
pub fn find_entity(world: &World, query: &str) -> (r: Result<WmEntity, NoEntity>)
    ensures
        match r {
            Ok(e) => meant(world@, query@) == Some(e@),
            Err(n) => meant(world@, query@) is None && n.query@ == query@,
        },
{
    if let Some(i) = crate::world::find_entity(&world.entities, query) {
        return Ok(world.entities[i].dup());
    }
    if let Some(i) = find_surest(&world.entities, query) {
        return Ok(world.entities[i].dup());
    }
    let cands = candidates_for(world, query);
    assert(rows(cands@).len() == cands@.len());
    if cands.len() > 0 {
        assert(rows(cands@)[0] == cands@[0]@);
        Ok(cands[0].dup())
    } else {
        Err(NoEntity { query: query.to_owned() })
    }
}

// ---------------------------------------------------------------------------------------------
// Mentions

/// What a score is made of: each part with its weight.
pub open spec fn parts_text(c: Seq<(Seq<char>, int)>) -> Seq<char> {
    joined(
        Seq::new(c.len(), |i: int| c[i].0 + " "@ + tenths(c[i].1, true)),
        ", "@,
    )
}

pub fn write_parts(c: &Vec<(String, i64)>) -> (r: String)
    ensures
        r@ == parts_text(parts(c@)),
{
    let ghost pv = parts(c@);
    let ghost goal = Seq::new(pv.len(), |i: int| pv[i].0 + " "@ + tenths(pv[i].1, true));
    let mut out: Vec<String> = Vec::new();
    let mut i: usize = 0;
    while i < c.len()
        invariant
            i <= c@.len(),
            pv == parts(c@),
            goal == Seq::new(pv.len(), |i: int| pv[i].0 + " "@ + tenths(pv[i].1, true)),
            out@.len() == i,
            forall|j: int| 0 <= j < i ==> (#[trigger] out@[j])@ == goal[j],
        decreases c.len() - i,
    {
        let mut m = c[i].0.clone();
        m.append(" ");
        m.append(show_tenths(c[i].1, true).as_str());
        out.push(m);
        i += 1;
    }
    assert(views(out@) =~= goal);
    join(&out, ", ")
}

/// The breakdown of a score, if there is one.
pub open spec fn breakdown_of(f: Option<MatchModel>) -> Seq<char> {
    match f {
        Some(m) => parts_text(m.contributions),
        None => seq![],
    }
}

fn breakdown(f: &Option<MatchScore>) -> (r: String)
    ensures
        r@ == breakdown_of(opt_match(*f)),
{
    match f {
        Some(m) => write_parts(&m.contributions),
        None => String::new(),
    }
}

/// Which pass a mention was resolved in.
pub open spec fn tier_of(c: CandidateModel) -> Seq<char> {
    if c.feature_scores is Some {
        "tier1"@
    } else if c.status == "needs_llm"@ || c.status == "new"@ || c.status == "rejected"@ {
        "tier1, created here"@
    } else {
        "tier2/human"@
    }
}

/// The lines on a mention.
pub open spec fn mention_lines(c: CandidateModel, s: SourceModel) -> Seq<char> {
    let evidence = breakdown_of(c.feature_scores);
    "  - \""@ + c.mention_text + "\" ["@ + (match c.mention_type_guess {
        Some(l) => l,
        None => "?"@,
    }) + "] → "@ + c.status + " ("@ + tier_of(c) + (match c.match_score {
        Some(n) => ", score "@ + tenths(n as int, false),
        None => seq![],
    }) + ")"@ + (if evidence.len() == 0 {
        seq![]
    } else {
        "\n      evidence: "@ + evidence
    }) + "\n      source: "@ + (match s.published_at {
        Some(p) => short_form(p, 16) + " · "@,
        None => seq![],
    }) + (match s.title {
        Some(t) => if t.len() == 0 {
            "(untitled)"@
        } else {
            t
        },
        None => "(untitled)"@,
    }) + " — "@ + s.source_ref + " ("@ + s.license_class + ")\n      candidate "@ + c.id + "\n"@
}

/// The mention resolved to the entity, and its source is stored.
pub open spec fn traces(w: WorldModel, c: CandidateModel, id: Seq<char>) -> bool {
    c.best_match_entity_id == Some(id) && item_of(w.source_items, c.source_item_id) is Some
}

/// The positions of the mentions of an entity, oldest first.
pub open spec fn mentions_of(w: WorldModel, id: Seq<char>) -> Seq<int> {
    let at = places(w.candidates.len() as int, |i: int| traces(w, w.candidates[i], id));
    arranged(
        at,
        ascending(Seq::new(at.len(), |k: int| Some(w.candidates[at[k]].created_at))),
    )
}

/// The section on mentions.
pub open spec fn mentions_text(w: WorldModel, id: Seq<char>) -> Seq<char> {
    let at = mentions_of(w, id);
    "\nMENTIONS ("@ + decimal(at.len()) + "):\n"@ + flat(
        Seq::new(
            at.len(),
            |k: int|
                mention_lines(
                    w.candidates[at[k]],
                    item_of(w.source_items, w.candidates[at[k]].source_item_id)->0,
                ),
        ),
    )
}

fn write_mention(c: &WmExtractionCandidate, s: &WmSourceItem) -> (r: String)
    ensures
        r@ == mention_lines(c@, s@),
{
    let mut m = "  - \"".to_owned();
    m.append(c.mention_text.as_str());
    m.append("\" [");
    match &c.mention_type_guess {
        Some(l) => {
            m.append(l.as_str());
        },
        None => {
            m.append("?");
        },
    }
    m.append("] → ");
    m.append(c.status.as_str());
    m.append(" (");
    let tier = if c.feature_scores.is_some() {
        "tier1"
    } else if str_eq(c.status.as_str(), "needs_llm") || str_eq(c.status.as_str(), "new")
        || str_eq(c.status.as_str(), "rejected") {
        "tier1, created here"
    } else {
        "tier2/human"
    };
    m.append(tier);
    let mut score = String::new();
    if let Some(n) = c.match_score {
        score = ", score ".to_owned();
        score.append(show_tenths(n, false).as_str());
    }
    m.append(score.as_str());
    m.append(")");
    let evidence = breakdown(&c.feature_scores);
    let mut shown = String::new();
    if !evidence.as_str().is_empty() {
        shown = "\n      evidence: ".to_owned();
        shown.append(evidence.as_str());
    }
    m.append(shown.as_str());
    m.append("\n      source: ");
    let mut day = String::new();
    if let Some(p) = &s.published_at {
        day = shorten(p.as_str(), 16);
        day.append(" · ");
    }
    m.append(day.as_str());
    match &s.title {
        Some(t) => {
            if t.as_str().is_empty() {
                m.append("(untitled)");
            } else {
                m.append(t.as_str());
            }
        },
        None => {
            m.append("(untitled)");
        },
    }
    m.append(" — ");
    m.append(s.source_ref.as_str());
    m.append(" (");
    m.append(s.license_class.as_str());
    m.append(")\n      candidate ");
    m.append(c.id.as_str());
    m.append("\n");
    m
}

fn find_mentions(world: &World, id: &str) -> (r: Vec<usize>)
    ensures
        positions(r@) == mentions_of(world@, id@),
        forall|k: int| 0 <= k < r@.len() ==> #[trigger] r@[k] < world.candidates@.len(),
        forall|k: int|
            0 <= k < r@.len() ==> traces(
                world@,
                world.candidates@[(#[trigger] r@[k]) as int]@,
                id@,
            ),
{
    let ghost w = world@;
    let ghost fits = |i: int| traces(w, w.candidates[i], id@);
    let mut marks: Vec<bool> = Vec::new();
    let mut i: usize = 0;
    while i < world.candidates.len()
        invariant
            i <= world.candidates@.len(),
            w == world@,
            fits == (|i: int| traces(w, w.candidates[i], id@)),
            marks@.len() == i,
            forall|j: int| 0 <= j < i ==> #[trigger] marks@[j] == fits(j),
        decreases world.candidates.len() - i,
    {
        let c = &world.candidates[i];
        assert(w.candidates[i as int] == c@);
        let mine = match &c.best_match_entity_id {
            Some(b) => str_eq(b.as_str(), id),
            None => false,
        };
        marks.push(mine && find_item(&world.source_items, c.source_item_id.as_str()).is_some());
        i += 1;
    }
    let at = marked_places(&marks, Ghost(fits));
    let ghost av = positions(at@);
    let mut keys: Vec<Option<String>> = Vec::new();
    let mut k: usize = 0;
    while k < at.len()
        invariant
            k <= at@.len(),
            w == world@,
            av == positions(at@),
            forall|j: int| 0 <= j < at@.len() ==> #[trigger] at@[j] < world.candidates@.len(),
            keys@.len() == k,
            forall|j: int|
                0 <= j < k ==> opt_view(#[trigger] keys@[j]) == Some(
                    w.candidates[av[j]].created_at,
                ),
        decreases at.len() - k,
    {
        assert(av[k as int] == at@[k as int]);
        keys.push(Some(world.candidates[at[k]].created_at.clone()));
        k += 1;
    }
    assert(opt_views(keys@) =~= Seq::new(
        av.len(),
        |k: int| Some(w.candidates[av[k]].created_at),
    ));
    let order = rank_ascending(&keys);
    let r = arrange(&at, &order);
    proof {
        assert forall|k: int| 0 <= k < r@.len() implies (#[trigger] r@[k])
            < world.candidates@.len() && traces(w, world.candidates@[r@[k] as int]@, id@) by {
            assert(at@.contains(r@[k]));
            let j = choose|j: int| 0 <= j < at@.len() && at@[j] == r@[k];
            assert(fits(at@[j] as int));
        }
    }
    r
}

fn write_mentions(world: &World, id: &str) -> (r: String)
    ensures
        r@ == mentions_text(world@, id@),
{
    let at = find_mentions(world, id);
    let ghost w = world@;
    let ghost av = positions(at@);
    let ghost goal = Seq::new(
        av.len(),
        |k: int|
            mention_lines(
                w.candidates[av[k]],
                item_of(w.source_items, w.candidates[av[k]].source_item_id)->0,
            ),
    );
    let mut out: Vec<String> = Vec::new();
    let mut k: usize = 0;
    while k < at.len()
        invariant
            k <= at@.len(),
            w == world@,
            av == positions(at@),
            forall|j: int| 0 <= j < at@.len() ==> #[trigger] at@[j] < world.candidates@.len(),
            forall|j: int|
                0 <= j < at@.len() ==> traces(
                    w,
                    world.candidates@[(#[trigger] at@[j]) as int]@,
                    id@,
                ),
            goal == Seq::new(
                av.len(),
                |k: int|
                    mention_lines(
                        w.candidates[av[k]],
                        item_of(w.source_items, w.candidates[av[k]].source_item_id)->0,
                    ),
            ),
            out@.len() == k,
            forall|j: int| 0 <= j < k ==> (#[trigger] out@[j])@ == goal[j],
        decreases at.len() - k,
    {
        assert(av[k as int] == at@[k as int]);
        let c = &world.candidates[at[k]];
        assert(w.candidates[av[k as int]] == c@);
        assert(traces(w, c@, id@));
        if let Some(s) = find_item(&world.source_items, c.source_item_id.as_str()) {
            out.push(write_mention(c, &world.source_items[s]));
        }
        k += 1;
    }
    assert(views(out@) =~= goal);
    assert(av.len() == at@.len());
    let mut m = "\nMENTIONS (".to_owned();
    m.append(decimal_of(at.len() as u64).as_str());
    m.append("):\n");
    m.append(flatten(&out).as_str());
    m
}

// ---------------------------------------------------------------------------------------------
// Relations

/// Typed relations come before co-mentions, and the heavier before the lighter.
pub open spec fn relation_key(e: EdgeModel) -> int {
    if e.edge_type == "mentioned_with"@ {
        e.weight as int
    } else {
        e.weight + 0x1_0000_0000_0000_0000
    }
}

/// The relation touches the entity.
pub open spec fn touches(e: EdgeModel, id: Seq<char>) -> bool {
    e.from_id == id || e.to_id == id
}

/// The positions of the relations of an entity, typed and heavy ones first; with `valid_only` only
/// of those that were not superseded.
pub open spec fn relations_of(
    edges: Seq<EdgeModel>,
    id: Seq<char>,
    valid_only: bool,
) -> Seq<int> {
    let at = places(
        edges.len() as int,
        |i: int| touches(edges[i], id) && (!valid_only || edges[i].invalid_at is None),
    );
    arranged(at, ranking(Seq::new(at.len(), |k: int| relation_key(edges[at[k]]))))
}

/// When a relation was valid.
pub open spec fn window(e: EdgeModel) -> Seq<char> {
    match (e.valid_at, e.invalid_at) {
        (Some(v), None) => "valid since "@ + short_form(v, 16),
        (Some(v), Some(i)) => "valid "@ + short_form(v, 16) + " → "@ + short_form(i, 16)
            + " (superseded"@ + (match e.superseded_by {
            Some(s) => " by "@ + short_form(s, 8),
            None => seq![],
        }) + ")"@,
        (None, Some(i)) => "invalid since "@ + short_form(i, 16),
        (None, None) => "no validity recorded"@,
    }
}

/// The line on a relation, seen from an entity.
pub open spec fn edge_line(es: Seq<EntityModel>, e: EdgeModel, id: Seq<char>) -> Seq<char> {
    "  - "@ + (if e.from_id == id {
        "→"@
    } else {
        "←"@
    }) + " "@ + name_in(
        es,
        if e.from_id == id {
            e.to_id
        } else {
            e.from_id
        },
    ) + " ["@ + e.edge_type + "] weight "@ + decimal(e.weight as nat) + " · "@ + window(e) + " · "@
        + decimal(listed(e.source_item_ids).len()) + " source(s)\n"@
}

/// The section on relations.
pub open spec fn relations_text(w: WorldModel, id: Seq<char>) -> Seq<char> {
    let at = relations_of(w.edges, id, false);
    "\nRELATIONS ("@ + decimal(at.len()) + "):\n"@ + flat(
        Seq::new(at.len(), |k: int| edge_line(w.entities, w.edges[at[k]], id)),
    )
}

fn write_window(e: &WmEdge) -> (r: String)
    ensures
        r@ == window(e@),
{
    match (&e.valid_at, &e.invalid_at) {
        (Some(v), None) => {
            let mut m = "valid since ".to_owned();
            m.append(shorten(v.as_str(), 16).as_str());
            m
        },
        (Some(v), Some(i)) => {
            let mut m = "valid ".to_owned();
            m.append(shorten(v.as_str(), 16).as_str());
            m.append(" → ");
            m.append(shorten(i.as_str(), 16).as_str());
            m.append(" (superseded");
            let mut by = String::new();
            if let Some(s) = &e.superseded_by {
                by = " by ".to_owned();
                by.append(shorten(s.as_str(), 8).as_str());
            }
            m.append(by.as_str());
            m.append(")");
            m
        },
        (None, Some(i)) => {
            let mut m = "invalid since ".to_owned();
            m.append(shorten(i.as_str(), 16).as_str());
            m
        },
        (None, None) => "no validity recorded".to_owned(),
    }
}

fn write_edge(es: &Vec<WmEntity>, e: &WmEdge, id: &str) -> (r: String)
    ensures
        r@ == edge_line(rows(es@), e@, id@),
{
    let mut m = "  - ".to_owned();
    let out = str_eq(e.from_id.as_str(), id);
    if out {
        m.append("→");
    } else {
        m.append("←");
    }
    m.append(" ");
    if out {
        m.append(name_among(es, e.to_id.as_str()).as_str());
    } else {
        m.append(name_among(es, e.from_id.as_str()).as_str());
    }
    m.append(" [");
    m.append(e.edge_type.as_str());
    m.append("] weight ");
    m.append(decimal_of(e.weight).as_str());
    m.append(" · ");
    m.append(write_window(e).as_str());
    m.append(" · ");
    let ids = e.source_ids();
    assert(views(ids@).len() == ids@.len());
    m.append(decimal_of(ids.len() as u64).as_str());
    m.append(" source(s)\n");
    m
}

/// The positions of the relations of an entity, typed and heavy ones first; with `valid_only`
/// only those that were not superseded.
pub fn find_relations(edges: &Vec<WmEdge>, id: &str, valid_only: bool) -> (r: Vec<usize>)
    ensures
        positions(r@) == relations_of(rows(edges@), id@, valid_only),
        forall|k: int| 0 <= k < r@.len() ==> #[trigger] r@[k] < edges@.len(),
{
    let ghost all = rows(edges@);
    let ghost fits = |i: int|
        touches(all[i], id@) && (!valid_only || all[i].invalid_at is None);
    let mut marks: Vec<bool> = Vec::new();
    let mut i: usize = 0;
    while i < edges.len()
        invariant
            i <= edges@.len(),
            all == rows(edges@),
            fits == (|i: int|
                touches(all[i], id@) && (!valid_only || all[i].invalid_at is None)),
            marks@.len() == i,
            forall|j: int| 0 <= j < i ==> #[trigger] marks@[j] == fits(j),
        decreases edges.len() - i,
    {
        let e = &edges[i];
        assert(all[i as int] == e@);
        marks.push(
            (str_eq(e.from_id.as_str(), id) || str_eq(e.to_id.as_str(), id)) && (!valid_only
                || e.invalid_at.is_none()),
        );
        i += 1;
    }
    let at = marked_places(&marks, Ghost(fits));
    let ghost av = positions(at@);
    let mut keys: Vec<i128> = Vec::new();
    let mut k: usize = 0;
    while k < at.len()
        invariant
            k <= at@.len(),
            all == rows(edges@),
            av == positions(at@),
            forall|j: int| 0 <= j < at@.len() ==> #[trigger] at@[j] < edges@.len(),
            keys@.len() == k,
            forall|j: int| 0 <= j < k ==> #[trigger] keys@[j] == relation_key(all[av[j]]),
        decreases at.len() - k,
    {
        assert(av[k as int] == at@[k as int]);
        let e = &edges[at[k]];
        assert(all[av[k as int]] == e@);
        if str_eq(e.edge_type.as_str(), "mentioned_with") {
            keys.push(e.weight as i128);
        } else {
            keys.push(e.weight as i128 + 0x1_0000_0000_0000_0000);
        }
        k += 1;
    }
    assert(ints(keys@) =~= Seq::new(av.len(), |k: int| relation_key(all[av[k]])));
    let order = rank_descending(&keys);
    let r = arrange(&at, &order);
    proof {
        assert forall|k: int| 0 <= k < r@.len() implies (#[trigger] r@[k]) < edges@.len() by {
            assert(at@.contains(r@[k]));
        }
    }
    r
}

fn write_relations(world: &World, id: &str) -> (r: String)
    ensures
        r@ == relations_text(world@, id@),
{
    let at = find_relations(&world.edges, id, false);
    let ghost w = world@;
    let ghost av = positions(at@);
    let ghost goal = Seq::new(av.len(), |k: int| edge_line(w.entities, w.edges[av[k]], id@));
    let mut out: Vec<String> = Vec::new();
    let mut k: usize = 0;
    while k < at.len()
        invariant
            k <= at@.len(),
            w == world@,
            av == positions(at@),
            forall|j: int| 0 <= j < at@.len() ==> #[trigger] at@[j] < world.edges@.len(),
            goal == Seq::new(av.len(), |k: int| edge_line(w.entities, w.edges[av[k]], id@)),
            out@.len() == k,
            forall|j: int| 0 <= j < k ==> (#[trigger] out@[j])@ == goal[j],
        decreases at.len() - k,
    {
        assert(av[k as int] == at@[k as int]);
        let e = &world.edges[at[k]];
        assert(w.edges[av[k as int]] == e@);
        out.push(write_edge(&world.entities, e, id));
        k += 1;
    }
    assert(views(out@) =~= goal);
    assert(av.len() == at@.len());
    let mut m = "\nRELATIONS (".to_owned();
    m.append(decimal_of(at.len() as u64).as_str());
    m.append("):\n");
    m.append(flatten(&out).as_str());
    m
}

// ---------------------------------------------------------------------------------------------
// Human decisions

/// The words behind a decision.
pub open spec fn because(reason: Option<Seq<char>>) -> Seq<char> {
    match reason {
        Some(r) => " — "@ + r,
        None => seq![],
    }
}

fn write_reason(reason: &Option<String>) -> (r: String)
    ensures
        r@ == because(opt_view(*reason)),
{
    match reason {
        Some(t) => {
            let mut m = " — ".to_owned();
            m.append(t.as_str());
            m
        },
        None => String::new(),
    }
}

/// The decision was on a mention of the entity.
pub open spec fn judges(w: WorldModel, d: ReviewModel, id: Seq<char>) -> bool {
    match candidate_of(w.candidates, d.candidate_id) {
        Some(c) => c.best_match_entity_id == Some(id),
        None => false,
    }
}

/// The positions of the decisions on the mentions of an entity, oldest first.
pub open spec fn decisions_on(w: WorldModel, id: Seq<char>) -> Seq<int> {
    let at = places(w.decisions.len() as int, |i: int| judges(w, w.decisions[i], id));
    arranged(
        at,
        ascending(Seq::new(at.len(), |k: int| Some(w.decisions[at[k]].decided_at))),
    )
}

/// The line on a decision.
pub open spec fn decision_line(d: ReviewModel, c: CandidateModel) -> Seq<char> {
    "  - "@ + d.decision + " \""@ + c.mention_text + "\" by "@ + d.actor + " at "@ + short_form(
        d.decided_at,
        16,
    ) + because(d.reason) + "\n"@
}

/// The decorrelation is one of the entity.
pub open spec fn parts_off(d: DecorrelationModel, id: Seq<char>) -> bool {
    d.entity_a_id == id || d.entity_b_id == id
}

/// The line on a decorrelation, seen from an entity.
pub open spec fn decorrelation_line(
    es: Seq<EntityModel>,
    d: DecorrelationModel,
    id: Seq<char>,
) -> Seq<char> {
    let other = if d.entity_a_id == id {
        d.entity_b_id
    } else {
        d.entity_a_id
    };
    "  - DECORRELATED from "@ + name_in(es, other) + " ("@ + other + ") at "@ + short_form(
        d.decided_at,
        16,
    ) + because(d.reason) + "\n"@
}

/// The section on human decisions.
pub open spec fn humans_text(w: WorldModel, id: Seq<char>) -> Seq<char> {
    let at = decisions_on(w, id);
    let ds = places(
        w.decorrelations.len() as int,
        |i: int| parts_off(w.decorrelations[i], id),
    );
    "\nHUMAN DECISIONS ("@ + decimal(at.len() + ds.len()) + "):\n"@ + flat(
        Seq::new(
            at.len(),
            |k: int|
                decision_line(
                    w.decisions[at[k]],
                    candidate_of(w.candidates, w.decisions[at[k]].candidate_id)->0,
                ),
        ),
    ) + flat(
        Seq::new(
            ds.len(),
            |k: int| decorrelation_line(w.entities, w.decorrelations[ds[k]], id),
        ),
    ) + (if at.len() + ds.len() == 0 {
        "  (none)\n"@
    } else {
        seq![]
    })
}

fn find_decisions(world: &World, id: &str) -> (r: Vec<usize>)
    ensures
        positions(r@) == decisions_on(world@, id@),
        forall|k: int| 0 <= k < r@.len() ==> #[trigger] r@[k] < world.decisions@.len(),
        forall|k: int|
            0 <= k < r@.len() ==> judges(
                world@,
                world.decisions@[(#[trigger] r@[k]) as int]@,
                id@,
            ),
{
    let ghost w = world@;
    let ghost fits = |i: int| judges(w, w.decisions[i], id@);
    let mut marks: Vec<bool> = Vec::new();
    let mut i: usize = 0;
    while i < world.decisions.len()
        invariant
            i <= world.decisions@.len(),
            w == world@,
            fits == (|i: int| judges(w, w.decisions[i], id@)),
            marks@.len() == i,
            forall|j: int| 0 <= j < i ==> #[trigger] marks@[j] == fits(j),
        decreases world.decisions.len() - i,
    {
        let d = &world.decisions[i];
        assert(w.decisions[i as int] == d@);
        marks.push(
            match find_candidate(&world.candidates, d.candidate_id.as_str()) {
                Some(c) => match &world.candidates[c].best_match_entity_id {
                    Some(b) => str_eq(b.as_str(), id),
                    None => false,
                },
                None => false,
            },
        );
        i += 1;
    }
    let at = marked_places(&marks, Ghost(fits));
    let ghost av = positions(at@);
    let mut keys: Vec<Option<String>> = Vec::new();
    let mut k: usize = 0;
    while k < at.len()
        invariant
            k <= at@.len(),
            w == world@,
            av == positions(at@),
            forall|j: int| 0 <= j < at@.len() ==> #[trigger] at@[j] < world.decisions@.len(),
            keys@.len() == k,
            forall|j: int|
                0 <= j < k ==> opt_view(#[trigger] keys@[j]) == Some(
                    w.decisions[av[j]].decided_at,
                ),
        decreases at.len() - k,
    {
        assert(av[k as int] == at@[k as int]);
        keys.push(Some(world.decisions[at[k]].decided_at.clone()));
        k += 1;
    }
    assert(opt_views(keys@) =~= Seq::new(
        av.len(),
        |k: int| Some(w.decisions[av[k]].decided_at),
    ));
    let order = rank_ascending(&keys);
    let r = arrange(&at, &order);
    proof {
        assert forall|k: int| 0 <= k < r@.len() implies (#[trigger] r@[k])
            < world.decisions@.len() && judges(w, world.decisions@[r@[k] as int]@, id@) by {
            assert(at@.contains(r@[k]));
            let j = choose|j: int| 0 <= j < at@.len() && at@[j] == r@[k];
            assert(fits(at@[j] as int));
        }
    }
    r
}

fn write_decision(d: &ReviewDecision, c: &WmExtractionCandidate) -> (r: String)
    ensures
        r@ == decision_line(d@, c@),
{
    let mut m = "  - ".to_owned();
    m.append(d.decision.as_str());
    m.append(" \"");
    m.append(c.mention_text.as_str());
    m.append("\" by ");
    m.append(d.actor.as_str());
    m.append(" at ");
    m.append(shorten(d.decided_at.as_str(), 16).as_str());
    m.append(write_reason(&d.reason).as_str());
    m.append("\n");
    m
}

fn write_decorrelation(es: &Vec<WmEntity>, d: &Decorrelation, id: &str) -> (r: String)
    ensures
        r@ == decorrelation_line(rows(es@), d@, id@),
{
    let other = if str_eq(d.entity_a_id.as_str(), id) {
        d.entity_b_id.as_str()
    } else {
        d.entity_a_id.as_str()
    };
    let mut m = "  - DECORRELATED from ".to_owned();
    m.append(name_among(es, other).as_str());
    m.append(" (");
    m.append(other);
    m.append(") at ");
    m.append(shorten(d.decided_at.as_str(), 16).as_str());
    m.append(write_reason(&d.reason).as_str());
    m.append("\n");
    m
}

fn write_decisions(world: &World, id: &str) -> (r: Vec<String>)
    ensures
        ({
            let at = decisions_on(world@, id@);
            views(r@) == Seq::new(
                at.len(),
                |k: int|
                    decision_line(
                        world@.decisions[at[k]],
                        candidate_of(
                            world@.candidates,
                            world@.decisions[at[k]].candidate_id,
                        )->0,
                    ),
            )
        }),
{
    let at = find_decisions(world, id);
    let ghost w = world@;
    let ghost av = positions(at@);
    let ghost goal = Seq::new(
        av.len(),
        |k: int|
            decision_line(
                w.decisions[av[k]],
                candidate_of(w.candidates, w.decisions[av[k]].candidate_id)->0,
            ),
    );
    let mut out: Vec<String> = Vec::new();
    let mut k: usize = 0;
    while k < at.len()
        invariant
            k <= at@.len(),
            w == world@,
            av == positions(at@),
            forall|j: int| 0 <= j < at@.len() ==> #[trigger] at@[j] < world.decisions@.len(),
            forall|j: int|
                0 <= j < at@.len() ==> judges(
                    w,
                    world.decisions@[(#[trigger] at@[j]) as int]@,
                    id@,
                ),
            goal == Seq::new(
                av.len(),
                |k: int|
                    decision_line(
                        w.decisions[av[k]],
                        candidate_of(w.candidates, w.decisions[av[k]].candidate_id)->0,
                    ),
            ),
            out@.len() == k,
            forall|j: int| 0 <= j < k ==> (#[trigger] out@[j])@ == goal[j],
        decreases at.len() - k,
    {
        assert(av[k as int] == at@[k as int]);
        let d = &world.decisions[at[k]];
        assert(w.decisions[av[k as int]] == d@);
        assert(judges(w, d@, id@));
        if let Some(c) = find_candidate(&world.candidates, d.candidate_id.as_str()) {
            out.push(write_decision(d, &world.candidates[c]));
        }
        k += 1;
    }
    assert(views(out@) =~= goal);
    out
}

fn write_decorrelations(world: &World, id: &str) -> (r: Vec<String>)
    ensures
        ({
            let ds = places(
                world@.decorrelations.len() as int,
                |i: int| parts_off(world@.decorrelations[i], id@),
            );
            views(r@) == Seq::new(
                ds.len(),
                |k: int|
                    decorrelation_line(world@.entities, world@.decorrelations[ds[k]], id@),
            )
        }),
{
    let ghost w = world@;
    let ghost fits = |i: int| parts_off(w.decorrelations[i], id@);
    let ghost line = |i: int| decorrelation_line(w.entities, w.decorrelations[i], id@);
    let mut out: Vec<String> = Vec::new();
    let mut i: usize = 0;
    assert(views(out@) =~= places(0, fits).map_values(line));
    while i < world.decorrelations.len()
        invariant
            i <= world.decorrelations@.len(),
            w == world@,
            fits == (|i: int| parts_off(w.decorrelations[i], id@)),
            line == (|i: int| decorrelation_line(w.entities, w.decorrelations[i], id@)),
            views(out@) == places(i as int, fits).map_values(line),
        decreases world.decorrelations.len() - i,
    {
        let d = &world.decorrelations[i];
        assert(w.decorrelations[i as int] == d@);
        let ghost done = views(out@);
        let ghost before = places(i as int, fits);
        if str_eq(d.entity_a_id.as_str(), id) || str_eq(d.entity_b_id.as_str(), id) {
            out.push(write_decorrelation(&world.entities, d, id));
            assert(views(out@) =~= done.push(line(i as int)));
            assert(done.push(line(i as int)) =~= before.push(i as int).map_values(line));
        }
        i += 1;
    }
    let ghost ds = places(w.decorrelations.len() as int, fits);
    assert(ds.map_values(line) =~= Seq::new(
        ds.len(),
        |k: int| decorrelation_line(w.entities, w.decorrelations[ds[k]], id@),
    ));
    out
}

fn write_humans(world: &World, id: &str) -> (r: String)
    ensures
        r@ == humans_text(world@, id@),
{
    let mut all = write_decisions(world, id);
    let mut more = write_decorrelations(world, id);
    let ghost a = views(all@);
    let ghost b = views(more@);
    all.append(&mut more);
    proof {
        assert(views(all@) =~= a + b);
        lemma_flat_append(a, b);
    }
    let n: usize = all.len();
    let mut m = "\nHUMAN DECISIONS (".to_owned();
    m.append(decimal_of(n as u64).as_str());
    m.append("):\n");
    let ghost head = m@;
    m.append(flatten(&all).as_str());
    assert(head + (flat(a) + flat(b)) =~= head + flat(a) + flat(b));
    let none = if n == 0 {
        "  (none)\n".to_owned()
    } else {
        String::new()
    };
    m.append(none.as_str());
    m
}

// ---------------------------------------------------------------------------------------------
// The trace

/// Names, one comma apart; a dash where there are none.
pub open spec fn names_text(names: Seq<Seq<char>>) -> Seq<char> {
    if names.len() == 0 {
        "—"@
    } else {
        joined(names, ", "@)
    }
}

pub fn write_names(names: &Vec<String>) -> (r: String)
    ensures
        r@ == names_text(views(names@)),
{
    assert(views(names@).len() == names@.len());
    if names.len() == 0 {
        "—".to_owned()
    } else {
        join(names, ", ")
    }
}

/// `true` or `false`.
pub open spec fn truth(b: bool) -> Seq<char> {
    if b {
        "true"@
    } else {
        "false"@
    }
}

pub fn write_truth(b: bool) -> (r: &'static str)
    ensures
        r@ == truth(b),
{
    if b {
        "true"
    } else {
        "false"
    }
}

/// The head of the trace.
pub open spec fn head_text(e: EntityModel) -> Seq<char> {
    e.canonical_name + " ["@ + e.entity_type + "] id="@ + e.id + "\n  aliases: "@ + names_text(
        listed(e.aliases),
    ) + "\n  confidence "@ + fixed(e.confidence, 2) + " · live="@ + truth(e.is_live)
        + " · first_seen "@ + short_form(e.first_seen, 16) + " · last_seen "@ + short_form(
        e.last_seen,
        16,
    ) + " · expiry "@ + (match e.expiry_time {
        Some(t) => short_form(t, 16),
        None => "none"@,
    }) + "\n"@
}

/// The provenance trace of an entity.
pub open spec fn trace(w: WorldModel, e: EntityModel) -> Seq<char> {
    head_text(e) + mentions_text(w, e.id) + relations_text(w, e.id) + humans_text(w, e.id)
}

fn write_head(e: &WmEntity) -> (r: String)
    ensures
        r@ == head_text(e@),
{
    let mut m = e.canonical_name.clone();
    m.append(" [");
    m.append(e.entity_type.as_str());
    m.append("] id=");
    m.append(e.id.as_str());
    m.append("\n  aliases: ");
    m.append(write_names(&e.alias_list()).as_str());
    m.append("\n  confidence ");
    m.append(e.confidence.to_fixed(2).as_str());
    m.append(" · live=");
    m.append(write_truth(e.is_live));
    m.append(" · first_seen ");
    m.append(shorten(e.first_seen.as_str(), 16).as_str());
    m.append(" · last_seen ");
    m.append(shorten(e.last_seen.as_str(), 16).as_str());
    m.append(" · expiry ");
    match &e.expiry_time {
        Some(t) => {
            m.append(shorten(t.as_str(), 16).as_str());
        },
        None => {
            m.append("none");
        },
    }
    m.append("\n");
    m
}

/// The provenance trace of the entity that the query stands for.
pub fn why(world: &World, query: &str) -> (r: Result<String, NoEntity>)
    ensures
        match r {
            Ok(text) => meant(world@, query@) is Some && text@ == trace(
                world@,
                meant(world@, query@)->0,
            ),
            Err(n) => meant(world@, query@) is None && n.query@ == query@,
        },
{
    let e = match find_entity(world, query) {
        Ok(e) => e,
        Err(n) => {
            return Err(n);
        },
    };
    let mut out = write_head(&e);
    out.append(write_mentions(world, e.id.as_str()).as_str());
    out.append(write_relations(world, e.id.as_str()).as_str());
    out.append(write_humans(world, e.id.as_str()).as_str());
    Ok(out)
}

} // verus!
