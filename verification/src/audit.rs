//! Re-checks every stored typed relation against the source text it came from, with the same
//! grounding rule that enrichment applies at insert time. Graphs built before the rule (or by a
//! weaker model) carry invented relations, and the honest fix is to re-verify them, not to hope
//! the next brief avoids them.

use vstd::prelude::*;
use vstd::string::*;

use crate::context::{all_names, names_of};
use crate::ground::{grounded, names_text, occurring_name, relation_grounded};
use crate::models::{listed, rows, EdgeModel, EntityModel, SourceModel, WmEdge, WmEntity};
use crate::models::{CandidateModel, WmSourceItem};
use crate::resolve::{count_one, one_more};
use crate::table::{keep_marked, kept, lemma_kept, marks_agree};
use crate::text::{list_has, lowercase, opt_view, str_eq, views};
use crate::world::{
    entity_of, find_entity, find_item, item_of, DecorrelationModel, GeoModel, KeyModel, World,
    WorldModel,
};

verus! {

/// How an audit went.
#[derive(Clone, Copy, Debug, PartialEq, Eq, Structural)]
pub struct AuditStats {
    pub checked: usize,
    pub kept: usize,
    pub failed: usize,
    pub no_source_text: usize,
    pub deleted: usize,
}

impl AuditStats {
    pub open spec fn zero() -> AuditStats {
        AuditStats { checked: 0, kept: 0, failed: 0, no_source_text: 0, deleted: 0 }
    }
}

impl Default for AuditStats {
    fn default() -> (r: Self)
        ensures
            r == AuditStats::zero(),
    {
        AuditStats { checked: 0, kept: 0, failed: 0, no_source_text: 0, deleted: 0 }
    }
}

// ---------------------------------------------------------------------------------------------
// Relations

/// The first of the names that the text holds.
pub open spec fn first_named(text: Seq<char>, names: Seq<Seq<char>>) -> Option<Seq<char>>
    decreases names.len(),
{
    if names.len() == 0 {
        None
    } else if names_text(text, names[0]) {
        Some(names[0])
    } else {
        first_named(text, names.drop_first())
    }
}

proof fn lemma_first_named(text: Seq<char>, names: Seq<Seq<char>>, i: int)
    requires
        0 <= i <= names.len(),
        forall|j: int| 0 <= j < i ==> !names_text(text, #[trigger] names[j]),
        i < names.len() ==> names_text(text, names[i]),
    ensures
        first_named(text, names) == if i < names.len() {
            Some(names[i])
        } else {
            None
        },
    decreases names.len(),
{
    if i > 0 {
        let rest = names.drop_first();
        assert(!names_text(text, names[0]));
        assert forall|j: int| 0 <= j < i - 1 implies !names_text(text, #[trigger] rest[j]) by {
            assert(rest[j] == names[j + 1]);
        }
        if i < names.len() {
            assert(rest[i - 1] == names[i]);
        }
        lemma_first_named(text, rest, i - 1);
    }
}

/// What a source says, in lower case; nothing where it is not stored.
pub open spec fn source_text(items: Seq<SourceModel>, id: Seq<char>) -> Seq<char> {
    match item_of(items, id) {
        Some(item) => lowercase(item.raw_text),
        None => seq![],
    }
}

/// The text grounds the relation, under the first of each side's names that it holds.
pub open spec fn supports(text: Seq<char>, e: EdgeModel, a: EntityModel, b: EntityModel) -> bool {
    match (first_named(text, all_names(a)), first_named(text, all_names(b))) {
        (Some(x), Some(y)) => grounded(text, x, y, e.edge_type, a.entity_type, b.entity_type),
        _ => false,
    }
}

/// What the sources say of a relation: whether one has text, and whether one supports it.
pub open spec fn findings(
    ids: Seq<Seq<char>>,
    items: Seq<SourceModel>,
    e: EdgeModel,
    a: EntityModel,
    b: EntityModel,
) -> (bool, bool)
    decreases ids.len(),
{
    if ids.len() == 0 {
        (false, false)
    } else {
        let (text, support) = findings(ids.drop_last(), items, e, a, b);
        let t = source_text(items, ids.last());
        (text || t.len() > 0, support || (t.len() > 0 && supports(t, e, a, b)))
    }
}

/// What becomes of a relation.
#[derive(Clone, Copy, Debug, PartialEq, Eq, Structural)]
pub enum Finding {
    /// One of its ends is not stored.
    Dangling,
    /// No source of it has text.
    NoText,
    /// A source supports it.
    Grounded,
    /// It has sources with text, and none supports it.
    Invented,
}

pub open spec fn finding(w: WorldModel, e: EdgeModel) -> Finding {
    match (entity_of(w.entities, e.from_id), entity_of(w.entities, e.to_id)) {
        (Some(a), Some(b)) => {
            let (text, support) = findings(listed(e.source_item_ids), w.source_items, e, a, b);
            if !text {
                Finding::NoText
            } else if support {
                Finding::Grounded
            } else {
                Finding::Invented
            }
        },
        _ => Finding::Dangling,
    }
}

/// The relation is more than a co-mention.
pub open spec fn is_typed(e: EdgeModel) -> bool {
    e.edge_type != "mentioned_with"@
}

/// The line on a relation that fails.
pub open spec fn failure_line(w: WorldModel, e: EdgeModel) -> Seq<char> {
    entity_of(w.entities, e.from_id)->0.canonical_name + " —"@ + e.edge_type + "→ "@ + entity_of(
        w.entities,
        e.to_id,
    )->0.canonical_name + "  ["@ + e.id + "]"@
}

/// Where an audit stands: the counts, the lines and the ids of what failed.
#[verifier::ext_equal]
pub struct AuditModel {
    pub stats: AuditStats,
    pub lines: Seq<Seq<char>>,
    pub failed: Seq<Seq<char>>,
}

/// The audit of the relations, in order.
pub open spec fn audited(w: WorldModel, edges: Seq<EdgeModel>, delete: bool) -> AuditModel
    decreases edges.len(),
{
    if edges.len() == 0 {
        AuditModel { stats: AuditStats::zero(), lines: seq![], failed: seq![] }
    } else {
        let a = audited(w, edges.drop_last(), delete);
        let e = edges.last();
        if !is_typed(e) {
            a
        } else {
            let s = AuditStats { checked: one_more(a.stats.checked), ..a.stats };
            match finding(w, e) {
                Finding::Dangling => AuditModel { stats: s, ..a },
                Finding::NoText => AuditModel {
                    stats: AuditStats { no_source_text: one_more(s.no_source_text), ..s },
                    ..a
                },
                Finding::Grounded => AuditModel {
                    stats: AuditStats { kept: one_more(s.kept), ..s },
                    ..a
                },
                Finding::Invented => AuditModel {
                    stats: AuditStats {
                        failed: one_more(s.failed),
                        deleted: if delete {
                            one_more(s.deleted)
                        } else {
                            s.deleted
                        },
                        ..s
                    },
                    lines: a.lines.push(failure_line(w, e)),
                    failed: a.failed.push(e.id),
                },
            }
        }
    }
}

/// The world after an audit: with `delete`, without the relations that failed.
pub open spec fn after_audit(w: WorldModel, delete: bool) -> WorldModel {
    if delete {
        WorldModel {
            edges: kept(
                w.edges,
                |e: EdgeModel| !audited(w, w.edges, delete).failed.contains(e.id),
            ),
            ..w
        }
    } else {
        w
    }
}

fn find_name(text: &str, names: &Vec<String>) -> (r: Option<String>)
    ensures
        opt_view(r) == first_named(text@, views(names@)),
{
    let ghost all = views(names@);
    let mut refs: Vec<&str> = Vec::new();
    let mut i: usize = 0;
    while i < names.len()
        invariant
            i <= names@.len(),
            refs@.len() == i,
            forall|j: int| 0 <= j < i ==> (#[trigger] refs@[j])@ == names@[j]@,
        decreases names.len() - i,
    {
        refs.push(names[i].as_str());
        i += 1;
    }
    let found = occurring_name(text, refs.as_slice());
    proof {
        assert forall|j: int| 0 <= j < all.len() implies refs@[j]@ == #[trigger] all[j] by {}
        match found {
            Some(n) => {
                let k = choose|k: int|
                    0 <= k < refs@.len() && n@ == (#[trigger] refs@[k])@ && names_text(text@, n@)
                        && forall|j: int|
                        0 <= j < k ==> !names_text(text@, (#[trigger] refs@[j])@);
                assert forall|j: int| 0 <= j < k implies !names_text(text@, #[trigger] all[j]) by {
                    assert(refs@[j]@ == all[j]);
                }
                lemma_first_named(text@, all, k);
            },
            None => {
                assert forall|j: int| 0 <= j < all.len() implies !names_text(
                    text@,
                    #[trigger] all[j],
                ) by {
                    assert(refs@[j]@ == all[j]);
                }
                lemma_first_named(text@, all, all.len() as int);
            },
        }
    }
    match found {
        Some(n) => Some(n.to_owned()),
        None => None,
    }
}

fn supported(text: &str, e: &WmEdge, a: &WmEntity, b: &WmEntity) -> (r: bool)
    ensures
        r == supports(text@, e@, a@, b@),
{
    match (find_name(text, &names_of(a)), find_name(text, &names_of(b))) {
        (Some(x), Some(y)) => relation_grounded(
            text,
            x.as_str(),
            y.as_str(),
            e.edge_type.as_str(),
            a.entity_type.as_str(),
            b.entity_type.as_str(),
        ),
        _ => false,
    }
}

/// Re-checks one relation. It is grounded if any of its sources supports it.
pub fn check_relation(world: &World, e: &WmEdge) -> (r: Finding)
    ensures
        r == finding(world@, e@),
{
    let (a, b) = match (
        find_entity(&world.entities, e.from_id.as_str()),
        find_entity(&world.entities, e.to_id.as_str()),
    ) {
        (Some(a), Some(b)) => (a, b),
        _ => {
            return Finding::Dangling;
        },
    };
    let a = &world.entities[a];
    let b = &world.entities[b];
    let ids = e.source_ids();
    let ghost all = views(ids@);
    let ghost items = world@.source_items;
    let mut text = false;
    let mut support = false;
    let mut i: usize = 0;
    assert(all.take(0) =~= seq![]);
    while i < ids.len()
        invariant
            i <= ids@.len(),
            all == views(ids@),
            items == rows(world.source_items@),
            (text, support) == findings(all.take(i as int), items, e@, a@, b@),
        decreases ids.len() - i,
    {
        assert(all.take(i + 1).drop_last() =~= all.take(i as int));
        assert(all.take(i + 1).last() == ids@[i as int]@);
        if let Some(at) = find_item(&world.source_items, ids[i].as_str()) {
            let t = world.source_items[at].raw_text.as_str().to_lowercase();
            if !t.as_str().is_empty() {
                text = true;
                if supported(t.as_str(), e, a, b) {
                    support = true;
                }
            }
        }
        i += 1;
    }
    assert(all.take(i as int) =~= all);
    if !text {
        Finding::NoText
    } else if support {
        Finding::Grounded
    } else {
        Finding::Invented
    }
}

fn write_failure(world: &World, e: &WmEdge) -> (r: String)
    requires
        finding(world@, e@) == Finding::Invented,
    ensures
        r@ == failure_line(world@, e@),
{
    let a = crate::context::name_among(&world.entities, e.from_id.as_str());
    let b = crate::context::name_among(&world.entities, e.to_id.as_str());
    let mut m = a;
    m.append(" —");
    m.append(e.edge_type.as_str());
    m.append("→ ");
    m.append(b.as_str());
    m.append("  [");
    m.append(e.id.as_str());
    m.append("]");
    m
}

/// Re-checks every typed relation. Returns the counts and the failing relations as lines; removes
/// them with `delete`.
pub fn audit_relations(world: &mut World, delete: bool) -> (r: (AuditStats, Vec<String>))
    ensures
        r.0 == audited(old(world)@, old(world)@.edges, delete).stats,
        views(r.1@) == audited(old(world)@, old(world)@.edges, delete).lines,
        final(world)@ == after_audit(old(world)@, delete),
{
    let ghost w = world@;
    let ghost all = w.edges;
    let mut stats = AuditStats::default();
    let mut lines: Vec<String> = Vec::new();
    let mut failed: Vec<String> = Vec::new();
    let mut i: usize = 0;
    assert(all.take(0) =~= seq![]);
    assert(views(lines@) =~= seq![]);
    assert(views(failed@) =~= seq![]);
    while i < world.edges.len()
        invariant
            i <= world.edges@.len(),
            w == world@,
            all == w.edges,
            audited(w, all.take(i as int), delete) == (AuditModel {
                stats,
                lines: views(lines@),
                failed: views(failed@),
            }),
        decreases world.edges.len() - i,
    {
        assert(all.take(i + 1).drop_last() =~= all.take(i as int));
        assert(all.take(i + 1).last() == world.edges@[i as int]@);
        let e = &world.edges[i];
        if !str_eq(e.edge_type.as_str(), "mentioned_with") {
            stats.checked = count_one(stats.checked);
            match check_relation(world, e) {
                Finding::Dangling => {},
                Finding::NoText => {
                    stats.no_source_text = count_one(stats.no_source_text);
                },
                Finding::Grounded => {
                    stats.kept = count_one(stats.kept);
                },
                Finding::Invented => {
                    let ghost lv = views(lines@);
                    let ghost fv = views(failed@);
                    stats.failed = count_one(stats.failed);
                    if delete {
                        stats.deleted = count_one(stats.deleted);
                    }
                    lines.push(write_failure(world, e));
                    failed.push(e.id.clone());
                    assert(views(lines@) =~= lv.push(failure_line(w, e@)));
                    assert(views(failed@) =~= fv.push(e@.id));
                },
            }
        }
        i += 1;
    }
    assert(all.take(i as int) =~= all);
    if delete {
        let ghost gone = views(failed@);
        let ghost stays = |e: EdgeModel| !audited(w, w.edges, delete).failed.contains(e.id);
        let mut marks: Vec<bool> = Vec::new();
        let mut k: usize = 0;
        while k < world.edges.len()
            invariant
                k <= world.edges@.len(),
                all == rows(world.edges@),
                gone == views(failed@),
                gone == audited(w, w.edges, delete).failed,
                stays == (|e: EdgeModel| !audited(w, w.edges, delete).failed.contains(e.id)),
                marks@.len() == k,
                forall|j: int| 0 <= j < k ==> #[trigger] marks@[j] == stays(all[j]),
            decreases world.edges.len() - k,
        {
            marks.push(!list_has(&failed, world.edges[k].id.as_str()));
            k += 1;
        }
        assert(marks_agree(all, marks@, stays));
        keep_marked(&mut world.edges, &marks, Ghost(stays));
        assert(world@ =~= after_audit(w, delete));
    }
    (stats, lines)
}

proof fn lemma_failures_are_noted(w: WorldModel, edges: Seq<EdgeModel>, delete: bool, i: int)
    requires
        0 <= i < edges.len(),
        is_typed(edges[i]),
        finding(w, edges[i]) == Finding::Invented,
    ensures
        audited(w, edges, delete).failed.contains(edges[i].id),
    decreases edges.len(),
{
    let most = edges.drop_last();
    let before = audited(w, most, delete).failed;
    crate::matcher::lemma_push_contains(before, edges.last().id, edges[i].id);
    if i < most.len() {
        assert(most[i] == edges[i]);
        lemma_failures_are_noted(w, most, delete, i);
    }
}

/// After an audit with `delete`, no typed relation is left that has sources with text of which
/// none supports it; and nothing was added.
pub proof fn law_audit_leaves_no_invention(w: WorldModel, e: EdgeModel)
    requires
        after_audit(w, true).edges.contains(e),
    ensures
        w.edges.contains(e),
        is_typed(e) ==> finding(w, e) != Finding::Invented,
{
    let stays = |e: EdgeModel| !audited(w, w.edges, true).failed.contains(e.id);
    lemma_kept(w.edges, stays, e);
    let i = choose|i: int| 0 <= i < w.edges.len() && w.edges[i] == e;
    if is_typed(e) && finding(w, e) == Finding::Invented {
        lemma_failures_are_noted(w, w.edges, true, i);
    }
}

// ---------------------------------------------------------------------------------------------
// Entities

/// The candidates with those of an entity detached rather than deleted, so that the mention
/// evidence survives.
pub open spec fn detached(cs: Seq<CandidateModel>, id: Seq<char>) -> Seq<CandidateModel> {
    Seq::new(
        cs.len(),
        |i: int|
            if cs[i].best_match_entity_id == Some(id) {
                CandidateModel { best_match_entity_id: None, status: "rejected_name"@, ..cs[i] }
            } else {
                cs[i]
            },
    )
}

/// The world without an entity and everything that hangs off it.
pub open spec fn without_entity(w: WorldModel, id: Seq<char>) -> WorldModel {
    WorldModel {
        candidates: detached(w.candidates, id),
        edges: kept(w.edges, |e: EdgeModel| e.from_id != id && e.to_id != id),
        decorrelations: kept(
            w.decorrelations,
            |d: DecorrelationModel| d.entity_a_id != id && d.entity_b_id != id,
        ),
        keys: kept(w.keys, |k: KeyModel| k.entity_id != id),
        geo: kept(w.geo, |g: GeoModel| g.entity_id != id),
        entities: kept(w.entities, |e: EntityModel| e.id != id),
        ..w
    }
}

/// The world without the entities whose names are not plausible.
pub open spec fn pruned(w: WorldModel, es: Seq<EntityModel>, plausible: Seq<bool>) -> WorldModel
    decreases es.len(),
{
    if es.len() == 0 {
        w
    } else {
        let rest = pruned(w, es.drop_last(), plausible);
        if plausible[es.len() - 1] {
            rest
        } else {
            without_entity(rest, es.last().id)
        }
    }
}

/// The line on an entity.
pub open spec fn pruning_line(e: EntityModel) -> Seq<char> {
    e.canonical_name + " ["@ + e.entity_type + "] "@ + e.id
}

/// The lines on the entities whose names are not plausible.
pub open spec fn pruning_lines(es: Seq<EntityModel>, plausible: Seq<bool>) -> Seq<Seq<char>>
    decreases es.len(),
{
    if es.len() == 0 {
        seq![]
    } else {
        let rest = pruning_lines(es.drop_last(), plausible);
        if plausible[es.len() - 1] {
            rest
        } else {
            rest.push(pruning_line(es.last()))
        }
    }
}

fn detach_candidates(world: &mut World, id: &str)
    ensures
        final(world)@ == (WorldModel {
            candidates: detached(old(world)@.candidates, id@),
            ..old(world)@
        }),
{
    let ghost w = world@;
    let ghost goal = detached(w.candidates, id@);
    let mut i: usize = 0;
    while i < world.candidates.len()
        invariant
            i <= world.candidates@.len(),
            world.candidates@.len() == w.candidates.len(),
            goal == detached(w.candidates, id@),
            world@ == (WorldModel { candidates: rows(world.candidates@), ..w }),
            forall|j: int| 0 <= j < i ==> (#[trigger] rows(world.candidates@)[j]) == goal[j],
            forall|j: int|
                i <= j < w.candidates.len() ==> (#[trigger] rows(world.candidates@)[j])
                    == w.candidates[j],
        decreases world.candidates.len() - i,
    {
        let ghost cur = rows(world.candidates@);
        assert(cur[i as int] == w.candidates[i as int]);
        let hit = match &world.candidates[i].best_match_entity_id {
            Some(b) => str_eq(b.as_str(), id),
            None => false,
        };
        if hit {
            world.candidates[i].best_match_entity_id = None;
            world.candidates[i].status = "rejected_name".to_owned();
        }
        assert forall|j: int| 0 <= j < cur.len() && j != i implies (#[trigger] rows(
            world.candidates@,
        )[j]) == cur[j] by {}
        assert(rows(world.candidates@)[i as int] == goal[i as int]);
        i += 1;
    }
    assert(rows(world.candidates@) =~= goal);
}

fn remove_entity(world: &mut World, id: &str)
    ensures
        final(world)@ == without_entity(old(world)@, id@),
{
    let ghost w = world@;
    detach_candidates(world, id);
    {
        let ghost all = rows(world.edges@);
        let ghost stays = |e: EdgeModel| e.from_id != id@ && e.to_id != id@;
        let mut marks: Vec<bool> = Vec::new();
        let mut k: usize = 0;
        while k < world.edges.len()
            invariant
                k <= world.edges@.len(),
                all == rows(world.edges@),
                stays == (|e: EdgeModel| e.from_id != id@ && e.to_id != id@),
                marks@.len() == k,
                forall|j: int| 0 <= j < k ==> #[trigger] marks@[j] == stays(all[j]),
            decreases world.edges.len() - k,
        {
            marks.push(!str_eq(world.edges[k].from_id.as_str(), id) && !str_eq(
                world.edges[k].to_id.as_str(),
                id,
            ));
            k += 1;
        }
        assert(marks_agree(all, marks@, stays));
        keep_marked(&mut world.edges, &marks, Ghost(stays));
    }
    {
        let ghost all = rows(world.decorrelations@);
        let ghost stays = |d: DecorrelationModel| d.entity_a_id != id@ && d.entity_b_id != id@;
        let mut marks: Vec<bool> = Vec::new();
        let mut k: usize = 0;
        while k < world.decorrelations.len()
            invariant
                k <= world.decorrelations@.len(),
                all == rows(world.decorrelations@),
                stays == (|d: DecorrelationModel| d.entity_a_id != id@ && d.entity_b_id != id@),
                marks@.len() == k,
                forall|j: int| 0 <= j < k ==> #[trigger] marks@[j] == stays(all[j]),
            decreases world.decorrelations.len() - k,
        {
            marks.push(!str_eq(world.decorrelations[k].entity_a_id.as_str(), id) && !str_eq(
                world.decorrelations[k].entity_b_id.as_str(),
                id,
            ));
            k += 1;
        }
        assert(marks_agree(all, marks@, stays));
        keep_marked(&mut world.decorrelations, &marks, Ghost(stays));
    }
    {
        let ghost all = rows(world.keys@);
        let ghost stays = |k: KeyModel| k.entity_id != id@;
        let mut marks: Vec<bool> = Vec::new();
        let mut k: usize = 0;
        while k < world.keys.len()
            invariant
                k <= world.keys@.len(),
                all == rows(world.keys@),
                stays == (|k: KeyModel| k.entity_id != id@),
                marks@.len() == k,
                forall|j: int| 0 <= j < k ==> #[trigger] marks@[j] == stays(all[j]),
            decreases world.keys.len() - k,
        {
            marks.push(!str_eq(world.keys[k].entity_id.as_str(), id));
            k += 1;
        }
        assert(marks_agree(all, marks@, stays));
        keep_marked(&mut world.keys, &marks, Ghost(stays));
    }
    {
        let ghost all = rows(world.geo@);
        let ghost stays = |g: GeoModel| g.entity_id != id@;
        let mut marks: Vec<bool> = Vec::new();
        let mut k: usize = 0;
        while k < world.geo.len()
            invariant
                k <= world.geo@.len(),
                all == rows(world.geo@),
                stays == (|g: GeoModel| g.entity_id != id@),
                marks@.len() == k,
                forall|j: int| 0 <= j < k ==> #[trigger] marks@[j] == stays(all[j]),
            decreases world.geo.len() - k,
        {
            marks.push(!str_eq(world.geo[k].entity_id.as_str(), id));
            k += 1;
        }
        assert(marks_agree(all, marks@, stays));
        keep_marked(&mut world.geo, &marks, Ghost(stays));
    }
    {
        let ghost all = rows(world.entities@);
        let ghost stays = |e: EntityModel| e.id != id@;
        let mut marks: Vec<bool> = Vec::new();
        let mut k: usize = 0;
        while k < world.entities.len()
            invariant
                k <= world.entities@.len(),
                all == rows(world.entities@),
                stays == (|e: EntityModel| e.id != id@),
                marks@.len() == k,
                forall|j: int| 0 <= j < k ==> #[trigger] marks@[j] == stays(all[j]),
            decreases world.entities.len() - k,
        {
            marks.push(!str_eq(world.entities[k].id.as_str(), id));
            k += 1;
        }
        assert(marks_agree(all, marks@, stays));
        keep_marked(&mut world.entities, &marks, Ghost(stays));
    }
    assert(world@ =~= without_entity(w, id@));
}

fn write_pruning(e: &WmEntity) -> (r: String)
    ensures
        r@ == pruning_line(e@),
{
    let mut m = e.canonical_name.clone();
    m.append(" [");
    m.append(e.entity_type.as_str());
    m.append("] ");
    m.append(e.id.as_str());
    m
}

/// Lists the entities whose names are not plausible, given a judgement on each entity. With
/// `delete`, removes them and everything hanging off them; candidates that pointed at them are
/// detached. Returns how many entities there were, and the lines.
pub fn prune_entities(world: &mut World, plausible: &Vec<bool>, delete: bool) -> (r: (
    usize,
    Vec<String>,
))
    requires
        plausible@.len() == old(world)@.entities.len(),
    ensures
        r.0 == old(world)@.entities.len(),
        views(r.1@) == pruning_lines(old(world)@.entities, plausible@),
        final(world)@ == if delete {
            pruned(old(world)@, old(world)@.entities, plausible@)
        } else {
            old(world)@
        },
{
    let ghost w = world@;
    let ghost es = w.entities;
    let checked = world.entities.len();
    let mut lines: Vec<String> = Vec::new();
    let mut i: usize = 0;
    assert(es.take(0) =~= seq![]);
    assert(views(lines@) =~= seq![]);
    while i < world.entities.len()
        invariant
            i <= world.entities@.len(),
            w == world@,
            es == w.entities,
            plausible@.len() == es.len(),
            views(lines@) == pruning_lines(es.take(i as int), plausible@),
        decreases world.entities.len() - i,
    {
        assert(es.take(i + 1).drop_last() =~= es.take(i as int));
        assert(es.take(i + 1).last() == world.entities@[i as int]@);
        if !plausible[i] {
            let ghost lv = views(lines@);
            lines.push(write_pruning(&world.entities[i]));
            assert(views(lines@) =~= lv.push(pruning_line(es[i as int])));
        }
        i += 1;
    }
    assert(es.take(i as int) =~= es);
    if delete {
        let ids = entity_ids(&world.entities);
        let mut k: usize = 0;
        assert(es.take(0) =~= seq![]);
        while k < ids.len()
            invariant
                k <= ids@.len(),
                ids@.len() == es.len(),
                plausible@.len() == es.len(),
                forall|j: int| 0 <= j < es.len() ==> (#[trigger] ids@[j])@ == es[j].id,
                world@ == pruned(w, es.take(k as int), plausible@),
            decreases ids.len() - k,
        {
            assert(es.take(k + 1).drop_last() =~= es.take(k as int));
            assert(es.take(k + 1).last().id == ids@[k as int]@);
            if !plausible[k] {
                remove_entity(world, ids[k].as_str());
            }
            k += 1;
        }
        assert(es.take(k as int) =~= es);
    }
    (checked, lines)
}

fn entity_ids(es: &Vec<WmEntity>) -> (r: Vec<String>)
    ensures
        r@.len() == es@.len(),
        forall|j: int| 0 <= j < es@.len() ==> (#[trigger] r@[j])@ == rows(es@)[j].id,
{
    let mut ids: Vec<String> = Vec::new();
    let mut i: usize = 0;
    while i < es.len()
        invariant
            i <= es@.len(),
            ids@.len() == i,
            forall|j: int| 0 <= j < i ==> (#[trigger] ids@[j])@ == rows(es@)[j].id,
        decreases es.len() - i,
    {
        ids.push(es[i].id.clone());
        i += 1;
    }
    ids
}

/// The entity and everything that hangs off it are gone; every mention is still there.
pub proof fn law_removal_leaves_no_trace(w: WorldModel, id: Seq<char>)
    ensures
        ({
            let after = without_entity(w, id);
            &&& forall|e: EntityModel| #[trigger] after.entities.contains(e) ==> e.id != id
            &&& forall|e: EdgeModel| #[trigger]
                after.edges.contains(e) ==> e.from_id != id && e.to_id != id
            &&& forall|k: KeyModel| #[trigger] after.keys.contains(k) ==> k.entity_id != id
            &&& forall|g: GeoModel| #[trigger] after.geo.contains(g) ==> g.entity_id != id
            &&& forall|i: int|
                0 <= i < after.candidates.len() ==> (#[trigger] after.candidates[i])
                    .best_match_entity_id != Some(id)
            &&& after.candidates.len() == w.candidates.len()
        }),
{
    let after = without_entity(w, id);
    assert forall|e: EntityModel| #[trigger] after.entities.contains(e) implies e.id != id by {
        lemma_kept(w.entities, |e: EntityModel| e.id != id, e);
    }
    assert forall|e: EdgeModel| #[trigger] after.edges.contains(e) implies e.from_id != id
        && e.to_id != id by {
        lemma_kept(w.edges, |e: EdgeModel| e.from_id != id && e.to_id != id, e);
    }
    assert forall|k: KeyModel| #[trigger] after.keys.contains(k) implies k.entity_id != id by {
        lemma_kept(w.keys, |k: KeyModel| k.entity_id != id, k);
    }
    assert forall|g: GeoModel| #[trigger] after.geo.contains(g) implies g.entity_id != id by {
        lemma_kept(w.geo, |g: GeoModel| g.entity_id != id, g);
    }
}

} // verus!
