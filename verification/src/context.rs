//! Context assembler: reason over the graph, not raw documents. Resolves a free-text question to
//! matching entities, walks the relations to a bounded depth, and formats a source-cited context
//! to answer from.

use vstd::prelude::*;
use vstd::string::*;

use crate::double::Double;
use crate::laws::asking::{is_called, law_best_fits_are_listed, lemma_live};
use crate::matcher::{best_similarity, jaro_winkler_best};
use crate::models::{
    listed, print_list, printed_list, rows, EdgeModel, EntityModel, SourceModel, WmEdge, WmEntity,
    WmSourceItem,
};
use crate::order::{ints, positions, rank_descending, ranking};
use crate::text::{
    before, decimal, decimal_of, flat, flatten, list_copy, list_has, lowercase, opt_copy, opt_str,
    opt_view, short_form, shorten, str_before, str_eq, views,
};
use crate::world::{entity_of, find_entity, find_item, item_of, World, WorldModel};

verus! {

/// The bits of the double 0.55, the similarity from which on a name matches a question.
pub const MATCH_THRESHOLD: u64 = 0x3fe199999999999a;

/// How many entities a question is taken to be about.
pub const MAX_SEED_MATCHES: usize = 5;

/// How far the relations are followed for a question.
pub const DEFAULT_DEPTH: usize = 2;

// ---------------------------------------------------------------------------------------------
// Seeds

/// Only the entities that are current. Reasoning runs over live facts; resolution still works
/// against the full history, so that stale entities are not created again.
pub open spec fn live(es: Seq<EntityModel>) -> Seq<EntityModel>
    decreases es.len(),
{
    if es.len() == 0 {
        seq![]
    } else if es.last().is_live {
        live(es.drop_last()).push(es.last())
    } else {
        live(es.drop_last())
    }
}

pub fn live_entities(world: &World) -> (r: Vec<WmEntity>)
    ensures
        rows(r@) == live(world@.entities),
{
    let ghost all = world@.entities;
    let mut out: Vec<WmEntity> = Vec::new();
    let mut i: usize = 0;
    assert(all.take(0) =~= seq![]);
    assert(rows(out@) =~= seq![]);
    while i < world.entities.len()
        invariant
            i <= world.entities@.len(),
            all == rows(world.entities@),
            rows(out@) == live(all.take(i as int)),
        decreases world.entities.len() - i,
    {
        assert(all.take(i + 1).drop_last() =~= all.take(i as int));
        assert(all.take(i + 1).last() == world.entities@[i as int]@);
        let ghost done = rows(out@);
        if world.entities[i].is_live {
            out.push(world.entities[i].dup());
            assert(rows(out@) =~= done.push(all[i as int]));
        }
        i += 1;
    }
    assert(all.take(i as int) =~= all);
    out
}

/// The names of an entity: the canonical one, then the aliases.
pub open spec fn all_names(e: EntityModel) -> Seq<Seq<char>> {
    seq![e.canonical_name] + listed(e.aliases)
}

/// Texts in lower case.
pub open spec fn lowered(names: Seq<Seq<char>>) -> Seq<Seq<char>> {
    Seq::new(names.len(), |i: int| lowercase(names[i]))
}

/// How well an entity fits a question, by the most similar of its names.
pub open spec fn fit(e: EntityModel, query: Seq<char>) -> Double {
    best_similarity(lowercase(query), lowered(all_names(e)))
}

/// How well each entity fits.
pub open spec fn fits(es: Seq<EntityModel>, query: Seq<char>) -> Seq<Double> {
    Seq::new(es.len(), |i: int| fit(es[i], query))
}

/// The positions of the scores that reach the threshold.
pub open spec fn reaching(scores: Seq<Double>) -> Seq<int>
    decreases scores.len(),
{
    if scores.len() == 0 {
        seq![]
    } else if scores.last().rank() >= MATCH_THRESHOLD {
        reaching(scores.drop_last()).push(scores.len() - 1)
    } else {
        reaching(scores.drop_last())
    }
}

/// The entities whose score reaches the threshold, best first, at most so many; equals keep their
/// order.
pub open spec fn seeds_by(es: Seq<EntityModel>, scores: Seq<Double>) -> Seq<EntityModel> {
    let at = reaching(scores);
    let order = ranking(Seq::new(at.len(), |i: int| scores[at[i]].rank()));
    let n = if order.len() < MAX_SEED_MATCHES {
        order.len() as int
    } else {
        MAX_SEED_MATCHES as int
    };
    Seq::new(n as nat, |i: int| es[at[order[i]]])
}

/// Lists the entities whose score reaches the threshold, best first.
pub fn best_scoring(es: &Vec<WmEntity>, scores: &Vec<Double>) -> (r: Vec<WmEntity>)
    requires
        es@.len() == scores@.len(),
    ensures
        rows(r@) == seeds_by(rows(es@), scores@),
{
    let threshold = Double::from_bits(MATCH_THRESHOLD);
    let mut at: Vec<usize> = Vec::new();
    let mut keys: Vec<i128> = Vec::new();
    let mut i: usize = 0;
    assert(scores@.take(0) =~= seq![]);
    assert(positions(at@) =~= seq![]);
    while i < scores.len()
        invariant
            i <= scores@.len(),
            threshold.rank() == MATCH_THRESHOLD,
            positions(at@) == reaching(scores@.take(i as int)),
            keys@.len() == at@.len(),
            forall|j: int| 0 <= j < at@.len() ==> #[trigger] at@[j] < i,
            forall|j: int|
                0 <= j < at@.len() ==> #[trigger] keys@[j] == scores@[at@[j] as int].rank(),
        decreases scores.len() - i,
    {
        assert(scores@.take(i + 1).drop_last() =~= scores@.take(i as int));
        let ghost done = positions(at@);
        if scores[i].at_least(threshold) {
            at.push(i);
            keys.push(scores[i].key());
            assert(positions(at@) =~= done.push(i as int));
        }
        i += 1;
    }
    assert(scores@.take(i as int) =~= scores@);
    let order = rank_descending(&keys);
    let ghost ats = reaching(scores@);
    assert(ints(keys@) =~= Seq::new(ats.len(), |i: int| scores@[ats[i]].rank())) by {
        assert forall|k: int| 0 <= k < keys@.len() implies ints(keys@)[k]
            == scores@[ats[k]].rank() by {
            assert(ats[k] == positions(at@)[k]);
            assert(keys@[k] == scores@[at@[k] as int].rank());
        }
    }
    let n: usize = if order.len() < MAX_SEED_MATCHES {
        order.len()
    } else {
        MAX_SEED_MATCHES
    };
    let ghost goal = seeds_by(rows(es@), scores@);
    assert(positions(order@).len() == order@.len());
    let mut out: Vec<WmEntity> = Vec::new();
    let mut k: usize = 0;
    while k < n
        invariant
            k <= n <= order@.len(),
            order@.len() == at@.len(),
            es@.len() == scores@.len(),
            goal.len() == n,
            ats == positions(at@),
            forall|j: int| 0 <= j < at@.len() ==> #[trigger] at@[j] < scores@.len(),
            forall|j: int| 0 <= j < order@.len() ==> #[trigger] order@[j] < at@.len(),
            forall|j: int|
                0 <= j < n ==> #[trigger] goal[j] == rows(es@)[ats[positions(order@)[j]]],
            out@.len() == k,
            forall|j: int| 0 <= j < k ==> (#[trigger] rows(out@)[j]) == goal[j],
        decreases n - k,
    {
        let ghost done = rows(out@);
        let at_k = at[order[k]];
        out.push(es[at_k].dup());
        assert forall|j: int| 0 <= j < k + 1 implies (#[trigger] rows(out@)[j]) == goal[j] by {
            if j < k {
                assert(rows(out@)[j] == done[j]);
            } else {
                assert(positions(order@)[j] == order@[j]);
                assert(ats[order@[j] as int] == at@[order@[j] as int]);
            }
        }
        k += 1;
    }
    assert(rows(out@) =~= goal);
    out
}

fn lower_all(names: &Vec<String>) -> (r: Vec<String>)
    ensures
        views(r@) == lowered(views(names@)),
{
    let ghost goal = lowered(views(names@));
    let mut out: Vec<String> = Vec::new();
    let mut i: usize = 0;
    while i < names.len()
        invariant
            i <= names@.len(),
            goal == lowered(views(names@)),
            out@.len() == i,
            forall|j: int| 0 <= j < i ==> (#[trigger] out@[j])@ == goal[j],
        decreases names.len() - i,
    {
        out.push(names[i].as_str().to_lowercase());
        i += 1;
    }
    assert(views(out@) =~= goal);
    out
}

/// The names of an entity, the canonical one first.
pub fn names_of(e: &WmEntity) -> (r: Vec<String>)
    ensures
        views(r@) == all_names(e@),
{
    let mut names: Vec<String> = Vec::new();
    names.push(e.canonical_name.clone());
    let mut aliases = e.alias_list();
    let ghost av = views(aliases@);
    names.append(&mut aliases);
    assert(views(names@) =~= all_names(e@));
    names
}

/// Free-text match against names and aliases, best-scoring first. Live entities only.
pub fn find_matching_entities(world: &World, query: &str) -> (r: Vec<WmEntity>)
    ensures
        rows(r@) == seeds_by(live(world@.entities), fits(live(world@.entities), query@)),
        forall|e: EntityModel| #[trigger]
            world@.entities.contains(e) && e.is_live && is_called(e, query@) ==> fit(
                e,
                query@,
            ).rank() >= crate::double::ONE && (rows(r@).contains(e) || (r@.len() == 5 && forall|
                j: int,
            |
                0 <= j < 5 ==> fit(#[trigger] rows(r@)[j], query@).rank() >= crate::double::ONE)),
{
    let es = live_entities(world);
    let q = query.to_lowercase();
    let ghost goal = fits(rows(es@), query@);
    let mut scores: Vec<Double> = Vec::new();
    let mut i: usize = 0;
    while i < es.len()
        invariant
            i <= es@.len(),
            goal == fits(rows(es@), query@),
            q@ == lowercase(query@),
            scores@.len() == i,
            forall|j: int| 0 <= j < i ==> #[trigger] scores@[j] == goal[j],
            forall|j: int|
                0 <= j < i && is_called(#[trigger] rows(es@)[j], query@) ==> fit(
                    rows(es@)[j],
                    query@,
                ).rank() >= crate::double::ONE,
        decreases es.len() - i,
    {
        let names = lower_all(&names_of(&es[i]));
        proof {
            let e = es@[i as int]@;
            assert(rows(es@)[i as int] == e);
            if is_called(e, query@) {
                let low = lowered(all_names(e));
                if lowercase(e.canonical_name) == q@ {
                    assert(low[0] == q@);
                } else {
                    let j = choose|j: int|
                        0 <= j < listed(e.aliases).len() && lowercase(
                            #[trigger] listed(e.aliases)[j],
                        ) == q@;
                    assert(all_names(e)[j + 1] == listed(e.aliases)[j]);
                    assert(low[j + 1] == q@);
                }
            }
        }
        scores.push(jaro_winkler_best(q.as_str(), &names));
        i += 1;
    }
    assert(scores@ =~= goal);
    let r = best_scoring(&es, &scores);
    proof {
        let all = world@.entities;
        law_best_fits_are_listed(all, query@);
        assert forall|e: EntityModel| #[trigger]
            all.contains(e) && e.is_live && is_called(e, query@) implies fit(e, query@).rank()
            >= crate::double::ONE && (rows(r@).contains(e) || (r@.len() == 5 && forall|j: int|
            0 <= j < 5 ==> fit(#[trigger] rows(r@)[j], query@).rank()
                >= crate::double::ONE)) by {
            lemma_live(all, e);
            let k = choose|k: int| 0 <= k < live(all).len() && live(all)[k] == e;
            assert(rows(es@)[k] == e);
        }
    }
    r
}

// ---------------------------------------------------------------------------------------------
// The walk

/// A part of the graph: entities, and the relations that were followed to reach them.
#[derive(Debug)]
pub struct GraphSlice {
    pub entities: Vec<WmEntity>,
    pub edges: Vec<WmEdge>,
}

#[verifier::ext_equal]
pub struct SliceModel {
    pub entities: Seq<EntityModel>,
    pub edges: Seq<EdgeModel>,
}

impl View for GraphSlice {
    type V = SliceModel;

    open spec fn view(&self) -> SliceModel {
        SliceModel { entities: rows(self.entities@), edges: rows(self.edges@) }
    }
}

/// Which relations of the graph are looked at.
#[derive(Clone, Copy, Debug)]
pub enum Moment<'a> {
    /// All of them, also those that others have taken the place of since.
    Ever,
    /// Those that are in force.
    Present,
    /// Those that were valid at a time: the graph as it was.
    At(&'a str),
}

pub enum MomentModel {
    Ever,
    Present,
    At(Seq<char>),
}

impl<'a> View for Moment<'a> {
    type V = MomentModel;

    open spec fn view(&self) -> MomentModel {
        match self {
            Moment::Ever => MomentModel::Ever,
            Moment::Present => MomentModel::Present,
            Moment::At(t) => MomentModel::At(t@),
        }
    }
}

/// The relation is part of the graph at that moment.
pub open spec fn holds_at(e: EdgeModel, moment: MomentModel) -> bool {
    match moment {
        MomentModel::Ever => true,
        MomentModel::Present => e.invalid_at is None,
        MomentModel::At(t) => {
            &&& match e.valid_at {
                Some(v) => !before(t, v),
                None => true,
            }
            &&& match e.invalid_at {
                Some(i) => before(t, i),
                None => true,
            }
        },
    }
}

pub fn held(e: &WmEdge, moment: Moment) -> (r: bool)
    ensures
        r == holds_at(e@, moment@),
{
    match moment {
        Moment::Ever => true,
        Moment::Present => e.invalid_at.is_none(),
        Moment::At(t) => {
            let begun = match &e.valid_at {
                Some(v) => !str_before(t, v.as_str()),
                None => true,
            };
            let open = match &e.invalid_at {
                Some(i) => str_before(t, i.as_str()),
                None => true,
            };
            begun && open
        },
    }
}

/// The whole history where no time is given, else the graph as it was then.
pub open spec fn history(as_of: Option<Seq<char>>) -> MomentModel {
    match as_of {
        Some(t) => MomentModel::At(t),
        None => MomentModel::Ever,
    }
}

pub fn history_of<'a>(as_of: Option<&'a str>) -> (r: Moment<'a>)
    ensures
        r@ == history(opt_str(as_of)),
{
    match as_of {
        Some(t) => Moment::At(t),
        None => Moment::Ever,
    }
}

/// The graph as it is where no time is given, else as it was then.
pub open spec fn as_asked(as_of: Option<Seq<char>>) -> MomentModel {
    match as_of {
        Some(t) => MomentModel::At(t),
        None => MomentModel::Present,
    }
}

pub fn moment_asked<'a>(as_of: Option<&'a str>) -> (r: Moment<'a>)
    ensures
        r@ == as_asked(opt_str(as_of)),
{
    match as_of {
        Some(t) => Moment::At(t),
        None => Moment::Present,
    }
}

/// An entity that a walk may meet: one that is live, or one that it sets out from.
pub open spec fn is_open(es: Seq<EntityModel>, seeds: Seq<Seq<char>>, id: Seq<char>) -> bool {
    seeds.contains(id) || exists|i: int|
        0 <= i < es.len() && (#[trigger] es[i]).id == id && es[i].is_live
}

fn may_meet(es: &Vec<WmEntity>, seeds: &Vec<String>, id: &str) -> (r: bool)
    ensures
        r == is_open(rows(es@), views(seeds@), id@),
{
    if list_has(seeds, id) {
        return true;
    }
    let ghost all = rows(es@);
    let mut i: usize = 0;
    while i < es.len()
        invariant
            i <= es@.len(),
            all == rows(es@),
            forall|k: int| 0 <= k < i ==> !((#[trigger] all[k]).id == id@ && all[k].is_live),
        decreases es.len() - i,
    {
        assert(all[i as int] == es@[i as int]@);
        if es[i].is_live && str_eq(es[i].id.as_str(), id) {
            return true;
        }
        i += 1;
    }
    false
}

/// The relation can be followed: it is part of the graph at that moment, and no expired entity
/// stands at either end.
pub open spec fn is_passable(
    e: EdgeModel,
    es: Seq<EntityModel>,
    seeds: Seq<Seq<char>>,
    moment: MomentModel,
) -> bool {
    holds_at(e, moment) && is_open(es, seeds, e.from_id) && is_open(es, seeds, e.to_id)
}

/// The relations that can be followed.
pub open spec fn passable(
    edges: Seq<EdgeModel>,
    es: Seq<EntityModel>,
    seeds: Seq<Seq<char>>,
    moment: MomentModel,
) -> Seq<EdgeModel>
    decreases edges.len(),
{
    if edges.len() == 0 {
        seq![]
    } else if is_passable(edges.last(), es, seeds, moment) {
        passable(edges.drop_last(), es, seeds, moment).push(edges.last())
    } else {
        passable(edges.drop_last(), es, seeds, moment)
    }
}

/// What lies at the other end of a relation, if it touches the entity.
pub open spec fn neighbor(e: EdgeModel, id: Seq<char>) -> Option<Seq<char>> {
    if e.from_id == id {
        Some(e.to_id)
    } else if e.to_id == id {
        Some(e.from_id)
    } else {
        None
    }
}

/// Where a walk stands: what it has met, what it met in this round, and the relations it used.
#[verifier::ext_equal]
pub struct WalkModel {
    pub visited: Seq<Seq<char>>,
    pub next: Seq<Seq<char>>,
    pub used: Seq<EdgeModel>,
}

/// The walk after one relation, seen from an entity.
pub open spec fn followed(w: WalkModel, e: EdgeModel, id: Seq<char>) -> WalkModel {
    match neighbor(e, id) {
        None => w,
        Some(n) => if w.visited.contains(n) {
            WalkModel { used: w.used.push(e), ..w }
        } else {
            WalkModel {
                visited: w.visited.push(n),
                next: w.next.push(n),
                used: w.used.push(e),
            }
        },
    }
}

/// The walk after all relations, seen from an entity.
pub open spec fn around(w: WalkModel, edges: Seq<EdgeModel>, id: Seq<char>) -> WalkModel
    decreases edges.len(),
{
    if edges.len() == 0 {
        w
    } else {
        followed(around(w, edges.drop_last(), id), edges.last(), id)
    }
}

/// The walk after one round, seen from each entity of the round before.
pub open spec fn round(w: WalkModel, edges: Seq<EdgeModel>, level: Seq<Seq<char>>) -> WalkModel
    decreases level.len(),
{
    if level.len() == 0 {
        w
    } else {
        around(round(w, edges, level.drop_last()), edges, level.last())
    }
}

/// The walk after so many rounds from the seeds.
pub open spec fn walk(edges: Seq<EdgeModel>, seeds: Seq<Seq<char>>, depth: nat) -> WalkModel
    decreases depth,
{
    if depth == 0 {
        WalkModel { visited: seeds, next: seeds, used: seq![] }
    } else {
        let w = walk(edges, seeds, (depth - 1) as nat);
        round(WalkModel { next: seq![], ..w }, edges, w.next)
    }
}

/// The entities that were met, in the order of the table: none that has expired, unless it was
/// asked for.
pub open spec fn entities_met(
    es: Seq<EntityModel>,
    seeds: Seq<Seq<char>>,
    met: Seq<Seq<char>>,
) -> Seq<EntityModel>
    decreases es.len(),
{
    if es.len() == 0 {
        seq![]
    } else if met.contains(es.last().id) && (es.last().is_live || seeds.contains(es.last().id)) {
        entities_met(es.drop_last(), seeds, met).push(es.last())
    } else {
        entities_met(es.drop_last(), seeds, met)
    }
}

/// The part of the graph within `depth` steps of the seeds.
pub open spec fn slice_of(
    w: WorldModel,
    seeds: Seq<Seq<char>>,
    depth: nat,
    moment: MomentModel,
) -> SliceModel {
    let end = walk(passable(w.edges, w.entities, seeds, moment), seeds, depth);
    SliceModel { entities: entities_met(w.entities, seeds, end.visited), edges: end.used }
}

fn look_around(
    edges: &Vec<WmEdge>,
    id: &str,
    visited: &mut Vec<String>,
    next: &mut Vec<String>,
    used: &mut Vec<WmEdge>,
)
    ensures
        ({
            let w = around(
                WalkModel {
                    visited: views(old(visited)@),
                    next: views(old(next)@),
                    used: rows(old(used)@),
                },
                rows(edges@),
                id@,
            );
            &&& views(final(visited)@) == w.visited
            &&& views(final(next)@) == w.next
            &&& rows(final(used)@) == w.used
        }),
{
    let ghost begin = WalkModel {
        visited: views(visited@),
        next: views(next@),
        used: rows(used@),
    };
    let ghost all = rows(edges@);
    let mut i: usize = 0;
    assert(all.take(0) =~= seq![]);
    while i < edges.len()
        invariant
            i <= edges@.len(),
            all == rows(edges@),
            around(begin, all.take(i as int), id@) == (WalkModel {
                visited: views(visited@),
                next: views(next@),
                used: rows(used@),
            }),
        decreases edges.len() - i,
    {
        assert(all.take(i + 1).drop_last() =~= all.take(i as int));
        assert(all.take(i + 1).last() == edges@[i as int]@);
        let e = &edges[i];
        let other = if str_eq(e.from_id.as_str(), id) {
            Some(e.to_id.clone())
        } else if str_eq(e.to_id.as_str(), id) {
            Some(e.from_id.clone())
        } else {
            None
        };
        let ghost vs = views(visited@);
        let ghost ns = views(next@);
        let ghost us = rows(used@);
        if let Some(n) = other {
            let ghost nv = n@;
            used.push(e.dup());
            assert(rows(used@) =~= us.push(e@));
            if !list_has(visited, n.as_str()) {
                visited.push(n.clone());
                next.push(n);
                assert(views(visited@) =~= vs.push(nv));
                assert(views(next@) =~= ns.push(nv));
            }
        }
        i += 1;
    }
    assert(all.take(i as int) =~= all);
}

/// Breadth-first walk along the relations, from the seeds to the given depth, over all relations
/// or over those that held at a time. It runs over what is live: no step leads to an expired
/// entity or through one.
pub fn bfs(world: &World, seeds: &Vec<String>, depth: usize, as_of: Option<&str>) -> (r: GraphSlice)
    ensures
        r@ == slice_of(world@, views(seeds@), depth as nat, history(opt_str(as_of))),
{
    walk_from(world, seeds, depth, history_of(as_of))
}

/// The walk over the relations of a moment.
pub fn walk_from(world: &World, seeds: &Vec<String>, depth: usize, moment: Moment) -> (r:
    GraphSlice)
    ensures
        r@ == slice_of(world@, views(seeds@), depth as nat, moment@),
{
    let ghost all = world@.edges;
    let ghost ents = world@.entities;
    let mut edges: Vec<WmEdge> = Vec::new();
    let mut i: usize = 0;
    assert(all.take(0) =~= seq![]);
    assert(rows(edges@) =~= seq![]);
    while i < world.edges.len()
        invariant
            i <= world.edges@.len(),
            all == rows(world.edges@),
            ents == rows(world.entities@),
            rows(edges@) == passable(all.take(i as int), ents, views(seeds@), moment@),
        decreases world.edges.len() - i,
    {
        assert(all.take(i + 1).drop_last() =~= all.take(i as int));
        assert(all.take(i + 1).last() == world.edges@[i as int]@);
        let ghost done = rows(edges@);
        let e = &world.edges[i];
        if held(e, moment) && may_meet(&world.entities, seeds, e.from_id.as_str()) && may_meet(
            &world.entities,
            seeds,
            e.to_id.as_str(),
        ) {
            edges.push(e.dup());
            assert(rows(edges@) =~= done.push(all[i as int]));
        }
        i += 1;
    }
    assert(all.take(i as int) =~= all);

    let ghost es = rows(edges@);
    let ghost start = views(seeds@);
    let mut visited = list_copy(seeds);
    let mut level = list_copy(seeds);
    let mut used: Vec<WmEdge> = Vec::new();
    let mut d: usize = 0;
    assert(rows(used@) =~= seq![]);
    while d < depth
        invariant
            d <= depth,
            es == rows(edges@),
            walk(es, start, d as nat) == (WalkModel {
                visited: views(visited@),
                next: views(level@),
                used: rows(used@),
            }),
        decreases depth - d,
    {
        let ghost w0 = WalkModel { next: seq![], ..walk(es, start, d as nat) };
        let ghost lv = views(level@);
        let mut next: Vec<String> = Vec::new();
        let mut k: usize = 0;
        assert(lv.take(0) =~= seq![]);
        assert(views(next@) =~= seq![]);
        while k < level.len()
            invariant
                k <= level@.len(),
                lv == views(level@),
                es == rows(edges@),
                round(w0, es, lv.take(k as int)) == (WalkModel {
                    visited: views(visited@),
                    next: views(next@),
                    used: rows(used@),
                }),
            decreases level.len() - k,
        {
            assert(lv.take(k + 1).drop_last() =~= lv.take(k as int));
            assert(lv.take(k + 1).last() == level@[k as int]@);
            look_around(&edges, level[k].as_str(), &mut visited, &mut next, &mut used);
            k += 1;
        }
        assert(lv.take(k as int) =~= lv);
        level = next;
        d += 1;
    }

    let ghost end = views(visited@);
    let mut entities: Vec<WmEntity> = Vec::new();
    let mut n: usize = 0;
    assert(ents.take(0) =~= seq![]);
    assert(rows(entities@) =~= seq![]);
    while n < world.entities.len()
        invariant
            n <= world.entities@.len(),
            ents == rows(world.entities@),
            end == views(visited@),
            rows(entities@) == entities_met(ents.take(n as int), views(seeds@), end),
        decreases world.entities.len() - n,
    {
        assert(ents.take(n + 1).drop_last() =~= ents.take(n as int));
        assert(ents.take(n + 1).last() == world.entities@[n as int]@);
        let ghost done = rows(entities@);
        let e = &world.entities[n];
        if list_has(&visited, e.id.as_str()) && (e.is_live || list_has(seeds, e.id.as_str())) {
            entities.push(e.dup());
            assert(rows(entities@) =~= done.push(ents[n as int]));
        }
        n += 1;
    }
    assert(ents.take(n as int) =~= ents);
    GraphSlice { entities, edges: used }
}

/// A relation leads from `y` to `x`.
pub open spec fn touching(edges: Seq<EdgeModel>, y: Seq<char>, x: Seq<char>) -> bool {
    exists|i: int| 0 <= i < edges.len() && neighbor(#[trigger] edges[i], y) == Some(x)
}

/// `x` lies within `n` steps of a seed.
pub open spec fn within(edges: Seq<EdgeModel>, seeds: Seq<Seq<char>>, n: nat, x: Seq<char>) -> bool
    decreases n,
{
    if n == 0 {
        seeds.contains(x)
    } else {
        within(edges, seeds, (n - 1) as nat, x) || exists|y: Seq<char>|
            #[trigger] touching(edges, y, x) && within(edges, seeds, (n - 1) as nat, y)
    }
}

/// What a part of a walk adds: `a` has visited what `b` had, and what is fresh; what is new was
/// met in this round, and all that was met in this round is visited.
pub open spec fn extends(b: WalkModel, a: WalkModel, fresh: spec_fn(Seq<char>) -> bool) -> bool {
    &&& forall|x: Seq<char>| #[trigger]
        a.visited.contains(x) <==> b.visited.contains(x) || fresh(x)
    &&& forall|x: Seq<char>| #[trigger]
        a.next.contains(x) ==> b.next.contains(x) || a.visited.contains(x)
    &&& forall|x: Seq<char>| b.next.contains(x) ==> #[trigger] a.next.contains(x)
    &&& forall|x: Seq<char>| #[trigger]
        a.visited.contains(x) && !b.visited.contains(x) ==> a.next.contains(x)
}

proof fn lemma_around(w: WalkModel, edges: Seq<EdgeModel>, id: Seq<char>)
    ensures
        extends(w, around(w, edges, id), |x: Seq<char>| touching(edges, id, x)),
    decreases edges.len(),
{
    if edges.len() > 0 {
        let most = edges.drop_last();
        let e = edges.last();
        lemma_around(w, most, id);
        let mid = around(w, most, id);
        let end = around(w, edges, id);
        assert forall|x: Seq<char>|
            touching(edges, id, x) <==> touching(most, id, x) || neighbor(e, id) == Some(x) by {
            if touching(edges, id, x) {
                let i = choose|i: int|
                    0 <= i < edges.len() && neighbor(#[trigger] edges[i], id) == Some(x);
                if i < most.len() {
                    assert(neighbor(most[i], id) == Some(x));
                }
            }
            if touching(most, id, x) {
                let i = choose|i: int|
                    0 <= i < most.len() && neighbor(#[trigger] most[i], id) == Some(x);
                assert(neighbor(edges[i], id) == Some(x));
            }
            if neighbor(e, id) == Some(x) {
                assert(neighbor(edges[edges.len() - 1], id) == Some(x));
            }
        }
        if let Some(n) = neighbor(e, id) {
            assert forall|x: Seq<char>| #[trigger]
                end.visited.contains(x) <==> mid.visited.contains(x) || x == n by {
                crate::matcher::lemma_push_contains(mid.visited, n, x);
            }
            assert forall|x: Seq<char>| #[trigger]
                end.next.contains(x) <==> mid.next.contains(x) || (x == n
                    && !mid.visited.contains(n)) by {
                crate::matcher::lemma_push_contains(mid.next, n, x);
            }
        }
        assert forall|x: Seq<char>| #[trigger]
            end.next.contains(x) implies w.next.contains(x) || end.visited.contains(x) by {
            if mid.next.contains(x) {
                assert(w.next.contains(x) || mid.visited.contains(x));
            }
        }
        assert forall|x: Seq<char>| w.next.contains(x) implies #[trigger] end.next.contains(x) by {
            assert(mid.next.contains(x));
        }
        assert forall|x: Seq<char>| #[trigger]
            end.visited.contains(x) && !w.visited.contains(x) implies end.next.contains(x) by {
            if mid.visited.contains(x) {
                assert(mid.next.contains(x));
                assert(end.next.contains(x));
            }
        }
    }
}

/// One of the entities of a round is a neighbor of `x`.
pub open spec fn from_level(edges: Seq<EdgeModel>, level: Seq<Seq<char>>, x: Seq<char>) -> bool {
    exists|j: int| 0 <= j < level.len() && touching(edges, #[trigger] level[j], x)
}

proof fn lemma_round(w: WalkModel, edges: Seq<EdgeModel>, level: Seq<Seq<char>>)
    ensures
        extends(w, round(w, edges, level), |x: Seq<char>| from_level(edges, level, x)),
    decreases level.len(),
{
    if level.len() > 0 {
        let most = level.drop_last();
        lemma_round(w, edges, most);
        let mid = round(w, edges, most);
        let end = round(w, edges, level);
        lemma_around(mid, edges, level.last());
        assert forall|x: Seq<char>|
            from_level(edges, level, x) <==> from_level(edges, most, x) || touching(
                edges,
                level.last(),
                x,
            ) by {
            if from_level(edges, level, x) {
                let j = choose|j: int|
                    0 <= j < level.len() && touching(edges, #[trigger] level[j], x);
                if j < most.len() {
                    assert(touching(edges, most[j], x));
                }
            }
            if from_level(edges, most, x) {
                let j = choose|j: int|
                    0 <= j < most.len() && touching(edges, #[trigger] most[j], x);
                assert(touching(edges, level[j], x));
            }
            if touching(edges, level.last(), x) {
                assert(touching(edges, level[level.len() - 1], x));
            }
        }
        assert forall|x: Seq<char>| #[trigger]
            end.visited.contains(x) <==> w.visited.contains(x) || from_level(edges, level, x) by {
            assert(mid.visited.contains(x) <==> w.visited.contains(x) || from_level(
                edges,
                most,
                x,
            ));
        }
        assert forall|x: Seq<char>| #[trigger]
            end.next.contains(x) implies w.next.contains(x) || end.visited.contains(x) by {
            if mid.next.contains(x) && !w.next.contains(x) {
                assert(mid.visited.contains(x));
            }
        }
        assert forall|x: Seq<char>| w.next.contains(x) implies #[trigger] end.next.contains(x) by {
            assert(mid.next.contains(x));
        }
        assert forall|x: Seq<char>| #[trigger]
            end.visited.contains(x) && !w.visited.contains(x) implies end.next.contains(x) by {
            if mid.visited.contains(x) {
                assert(mid.next.contains(x));
                assert(end.next.contains(x));
            }
        }
    } else {
        assert forall|x: Seq<char>| !from_level(edges, level, x) by {}
    }
}

pub proof fn lemma_walk(edges: Seq<EdgeModel>, seeds: Seq<Seq<char>>, depth: nat)
    ensures
        ({
            let w = walk(edges, seeds, depth);
            &&& forall|x: Seq<char>| #[trigger]
                w.visited.contains(x) <==> within(edges, seeds, depth, x)
            &&& forall|x: Seq<char>| #[trigger] w.next.contains(x) ==> w.visited.contains(x)
            &&& forall|y: Seq<char>, x: Seq<char>|
                w.visited.contains(y) && !w.next.contains(y) && #[trigger] touching(edges, y, x)
                    ==> w.visited.contains(x)
        }),
    decreases depth,
{
    if depth > 0 {
        let less = (depth - 1) as nat;
        lemma_walk(edges, seeds, less);
        let w = walk(edges, seeds, less);
        let begin = WalkModel { next: seq![], ..w };
        let end = walk(edges, seeds, depth);
        lemma_round(begin, edges, w.next);
        assert forall|x: Seq<char>| #[trigger]
            end.visited.contains(x) <==> within(edges, seeds, depth, x) by {
            assert(w.visited.contains(x) <==> within(edges, seeds, less, x));
            if from_level(edges, w.next, x) {
                let j = choose|j: int|
                    0 <= j < w.next.len() && touching(edges, #[trigger] w.next[j], x);
                let y = w.next[j];
                assert(w.next.contains(y));
                assert(w.visited.contains(y));
                assert(within(edges, seeds, less, y));
            }
            if within(edges, seeds, depth, x) && !within(edges, seeds, less, x) {
                let y = choose|y: Seq<char>| #[trigger]
                    touching(edges, y, x) && within(edges, seeds, less, y);
                assert(w.visited.contains(y));
                if w.next.contains(y) {
                    let j = choose|j: int| 0 <= j < w.next.len() && w.next[j] == y;
                    assert(touching(edges, w.next[j], x));
                    assert(from_level(edges, w.next, x));
                } else {
                    assert(w.visited.contains(x));
                }
            }
        }
        assert forall|x: Seq<char>| #[trigger] end.next.contains(x) implies end.visited.contains(
            x,
        ) by {
            assert(!begin.next.contains(x));
        }
        assert forall|y: Seq<char>, x: Seq<char>|
            end.visited.contains(y) && !end.next.contains(y) && #[trigger] touching(
                edges,
                y,
                x,
            ) implies end.visited.contains(x) by {
            assert(begin.visited.contains(y));
            if w.next.contains(y) {
                let j = choose|j: int| 0 <= j < w.next.len() && w.next[j] == y;
                assert(touching(edges, w.next[j], x));
                assert(from_level(edges, w.next, x));
                assert(end.visited.contains(x));
            } else {
                assert(w.visited.contains(x));
                assert(begin.visited.contains(x));
                assert(end.visited.contains(x));
            }
        }
    }
}

/// A walk meets exactly what lies within so many steps of a seed.
pub proof fn law_walk_reaches_exactly(
    edges: Seq<EdgeModel>,
    seeds: Seq<Seq<char>>,
    depth: nat,
    x: Seq<char>,
)
    ensures
        walk(edges, seeds, depth).visited.contains(x) <==> within(edges, seeds, depth, x),
{
    lemma_walk(edges, seeds, depth);
}

pub proof fn lemma_used(
    edges: Seq<EdgeModel>,
    seeds: Seq<Seq<char>>,
    depth: nat,
    e: EdgeModel,
)
    requires
        walk(edges, seeds, depth).used.contains(e),
    ensures
        edges.contains(e),
    decreases depth,
{
    if depth > 0 {
        let w = walk(edges, seeds, (depth - 1) as nat);
        lemma_round_used(WalkModel { next: seq![], ..w }, edges, w.next, e);
        if w.used.contains(e) {
            lemma_used(edges, seeds, (depth - 1) as nat, e);
        }
    }
}

proof fn lemma_round_used(
    w: WalkModel,
    edges: Seq<EdgeModel>,
    level: Seq<Seq<char>>,
    e: EdgeModel,
)
    requires
        round(w, edges, level).used.contains(e),
    ensures
        w.used.contains(e) || edges.contains(e),
    decreases level.len(),
{
    if level.len() > 0 {
        let mid = round(w, edges, level.drop_last());
        lemma_around_used(mid, edges, level.last(), e);
        if mid.used.contains(e) {
            lemma_round_used(w, edges, level.drop_last(), e);
        }
    }
}

proof fn lemma_around_used(w: WalkModel, edges: Seq<EdgeModel>, id: Seq<char>, e: EdgeModel)
    requires
        around(w, edges, id).used.contains(e),
    ensures
        w.used.contains(e) || edges.contains(e),
    decreases edges.len(),
{
    if edges.len() > 0 {
        let mid = around(w, edges.drop_last(), id);
        crate::matcher::lemma_push_contains(mid.used, edges.last(), e);
        if mid.used.contains(e) {
            lemma_around_used(w, edges.drop_last(), id, e);
            if edges.drop_last().contains(e) {
                let i = choose|i: int| 0 <= i < edges.len() - 1 && edges.drop_last()[i] == e;
                assert(edges[i] == e);
            }
        } else {
            assert(edges[edges.len() - 1] == e);
        }
    }
}

proof fn lemma_passable(
    edges: Seq<EdgeModel>,
    es: Seq<EntityModel>,
    seeds: Seq<Seq<char>>,
    moment: MomentModel,
    e: EdgeModel,
)
    requires
        passable(edges, es, seeds, moment).contains(e),
    ensures
        edges.contains(e),
        is_passable(e, es, seeds, moment),
    decreases edges.len(),
{
    if edges.len() > 0 {
        let most = edges.drop_last();
        crate::matcher::lemma_push_contains(passable(most, es, seeds, moment), edges.last(), e);
        if passable(most, es, seeds, moment).contains(e) {
            lemma_passable(most, es, seeds, moment, e);
            let i = choose|i: int| 0 <= i < most.len() && most[i] == e;
            assert(edges[i] == e);
        } else {
            assert(edges[edges.len() - 1] == e);
        }
    }
}

/// Asked as of a time, the graph answers as it was: every relation of the slice is stored, and
/// held at that time.
pub proof fn law_slice_is_as_it_was(
    w: WorldModel,
    seeds: Seq<Seq<char>>,
    depth: nat,
    moment: MomentModel,
    e: EdgeModel,
)
    requires
        slice_of(w, seeds, depth, moment).edges.contains(e),
    ensures
        w.edges.contains(e),
        holds_at(e, moment),
{
    lemma_used(passable(w.edges, w.entities, seeds, moment), seeds, depth, e);
    lemma_passable(w.edges, w.entities, seeds, moment, e);
}

proof fn lemma_entities_met(
    es: Seq<EntityModel>,
    seeds: Seq<Seq<char>>,
    met: Seq<Seq<char>>,
    e: EntityModel,
)
    requires
        entities_met(es, seeds, met).contains(e),
    ensures
        es.contains(e),
        met.contains(e.id),
        e.is_live || seeds.contains(e.id),
    decreases es.len(),
{
    if es.len() > 0 {
        let most = es.drop_last();
        crate::matcher::lemma_push_contains(entities_met(most, seeds, met), es.last(), e);
        if entities_met(most, seeds, met).contains(e) {
            lemma_entities_met(most, seeds, met, e);
            let i = choose|i: int| 0 <= i < most.len() && most[i] == e;
            assert(es[i] == e);
        } else {
            assert(es[es.len() - 1] == e);
        }
    }
}

/// Where no expired entity is a seed.
pub open spec fn all_live(es: Seq<EntityModel>, seeds: Seq<Seq<char>>) -> bool {
    forall|i: int| 0 <= i < es.len() && seeds.contains((#[trigger] es[i]).id) ==> es[i].is_live
}

/// Reasoning runs over what is live: from live seeds, every entity of the slice is live.
pub proof fn law_slice_is_live(
    w: WorldModel,
    seeds: Seq<Seq<char>>,
    depth: nat,
    moment: MomentModel,
    e: EntityModel,
)
    requires
        all_live(w.entities, seeds),
        slice_of(w, seeds, depth, moment).entities.contains(e),
    ensures
        w.entities.contains(e),
        e.is_live,
{
    let end = walk(passable(w.edges, w.entities, seeds, moment), seeds, depth);
    lemma_entities_met(w.entities, seeds, end.visited, e);
    let i = choose|i: int| 0 <= i < w.entities.len() && w.entities[i] == e;
    assert(w.entities[i].is_live || seeds.contains(w.entities[i].id));
}

/// No step leads to an expired entity or through one: both ends of every relation of the slice
/// are live, or seeds.
pub proof fn law_steps_avoid_the_expired(
    w: WorldModel,
    seeds: Seq<Seq<char>>,
    depth: nat,
    moment: MomentModel,
    e: EdgeModel,
)
    requires
        slice_of(w, seeds, depth, moment).edges.contains(e),
    ensures
        is_open(w.entities, seeds, e.from_id),
        is_open(w.entities, seeds, e.to_id),
{
    lemma_used(passable(w.edges, w.entities, seeds, moment), seeds, depth, e);
    lemma_passable(w.edges, w.entities, seeds, moment, e);
}

// ---------------------------------------------------------------------------------------------
// Sources

/// A source, under the number that it is cited by.
#[derive(Debug)]
pub struct SourceRef {
    pub number: usize,
    pub id: String,
    pub title: String,
    pub source_ref: String,
    pub license_class: String,
    pub published_at: Option<String>,
}

#[verifier::ext_equal]
pub struct RefModel {
    pub number: nat,
    pub id: Seq<char>,
    pub title: Seq<char>,
    pub source_ref: Seq<char>,
    pub license_class: Seq<char>,
    pub published_at: Option<Seq<char>>,
}

impl View for SourceRef {
    type V = RefModel;

    open spec fn view(&self) -> RefModel {
        RefModel {
            number: self.number as nat,
            id: self.id@,
            title: self.title@,
            source_ref: self.source_ref@,
            license_class: self.license_class@,
            published_at: opt_view(self.published_at),
        }
    }
}

/// The ids of the items that the relations come from, in order.
pub open spec fn cited_ids(edges: Seq<EdgeModel>) -> Seq<Seq<char>>
    decreases edges.len(),
{
    if edges.len() == 0 {
        seq![]
    } else {
        cited_ids(edges.drop_last()) + listed(edges.last().source_item_ids)
    }
}

/// A source of that id is among them.
pub open spec fn has_ref(refs: Seq<RefModel>, id: Seq<char>) -> bool {
    exists|i: int| 0 <= i < refs.len() && (#[trigger] refs[i]).id == id
}

/// The source that an item is, under a number.
pub open spec fn ref_of(item: SourceModel, number: nat) -> RefModel {
    RefModel {
        number,
        id: item.id,
        title: match item.title {
            Some(t) => t,
            None => seq![],
        },
        source_ref: item.source_ref,
        license_class: item.license_class,
        published_at: item.published_at,
    }
}

/// The stored items with the given ids, each once, numbered from 1 in the order in which they are
/// first named.
pub open spec fn numbered(ids: Seq<Seq<char>>, items: Seq<SourceModel>) -> Seq<RefModel>
    decreases ids.len(),
{
    if ids.len() == 0 {
        seq![]
    } else {
        let refs = numbered(ids.drop_last(), items);
        match item_of(items, ids.last()) {
            Some(item) => if has_ref(refs, ids.last()) {
                refs
            } else {
                refs.push(ref_of(item, refs.len() + 1))
            },
            None => refs,
        }
    }
}

fn is_listed(refs: &Vec<SourceRef>, id: &str) -> (r: bool)
    ensures
        r == has_ref(rows(refs@), id@),
{
    let mut i: usize = 0;
    while i < refs.len()
        invariant
            i <= refs@.len(),
            forall|j: int| 0 <= j < i ==> (#[trigger] rows(refs@)[j]).id != id@,
        decreases refs.len() - i,
    {
        assert(rows(refs@)[i as int].id == refs@[i as int].id@);
        if str_eq(refs[i].id.as_str(), id) {
            return true;
        }
        i += 1;
    }
    false
}

fn all_cited(edges: &Vec<WmEdge>) -> (r: Vec<String>)
    ensures
        views(r@) == cited_ids(rows(edges@)),
{
    let ghost all = rows(edges@);
    let mut out: Vec<String> = Vec::new();
    let mut i: usize = 0;
    assert(all.take(0) =~= seq![]);
    assert(views(out@) =~= seq![]);
    while i < edges.len()
        invariant
            i <= edges@.len(),
            all == rows(edges@),
            views(out@) == cited_ids(all.take(i as int)),
        decreases edges.len() - i,
    {
        assert(all.take(i + 1).drop_last() =~= all.take(i as int));
        assert(all.take(i + 1).last() == edges@[i as int]@);
        let ghost done = views(out@);
        let mut ids = edges[i].source_ids();
        let ghost iv = views(ids@);
        out.append(&mut ids);
        assert(views(out@) =~= done + iv);
        i += 1;
    }
    assert(all.take(i as int) =~= all);
    out
}

/// The sources of the relations of a slice, numbered in the order in which they are first named.
pub fn load_sources(world: &World, slice: &GraphSlice) -> (r: Vec<SourceRef>)
    ensures
        rows(r@) == numbered(cited_ids(slice@.edges), world@.source_items),
{
    let ids = all_cited(&slice.edges);
    let ghost all = views(ids@);
    let ghost items = world@.source_items;
    let mut out: Vec<SourceRef> = Vec::new();
    let mut i: usize = 0;
    assert(all.take(0) =~= seq![]);
    assert(rows(out@) =~= seq![]);
    while i < ids.len()
        invariant
            i <= ids@.len(),
            all == views(ids@),
            items == rows(world.source_items@),
            out@.len() <= i,
            rows(out@) == numbered(all.take(i as int), items),
        decreases ids.len() - i,
    {
        assert(all.take(i + 1).drop_last() =~= all.take(i as int));
        assert(all.take(i + 1).last() == ids@[i as int]@);
        let ghost done = rows(out@);
        if let Some(at) = find_item(&world.source_items, ids[i].as_str()) {
            if !is_listed(&out, ids[i].as_str()) {
                let item = &world.source_items[at];
                let number: usize = out.len() + 1;
                let found = SourceRef {
                    number,
                    id: item.id.clone(),
                    title: match opt_copy(&item.title) {
                        Some(t) => t,
                        None => String::new(),
                    },
                    source_ref: item.source_ref.clone(),
                    license_class: item.license_class.clone(),
                    published_at: opt_copy(&item.published_at),
                };
                assert(found@ =~= ref_of(item@, done.len() + 1));
                out.push(found);
                assert(rows(out@) =~= done.push(ref_of(item@, done.len() + 1)));
            }
        }
        i += 1;
    }
    assert(all.take(i as int) =~= all);
    out
}

/// The ids of the items of a license class.
pub open spec fn licensed(
    ids: Seq<Seq<char>>,
    items: Seq<SourceModel>,
    class: Seq<char>,
) -> Seq<Seq<char>>
    decreases ids.len(),
{
    if ids.len() == 0 {
        seq![]
    } else {
        let kept = licensed(ids.drop_last(), items, class);
        match item_of(items, ids.last()) {
            Some(item) => if item.license_class == class {
                kept.push(ids.last())
            } else {
                kept
            },
            None => kept,
        }
    }
}

/// The relations that items of a license class support, each with those items only.
pub open spec fn licensed_edges(
    edges: Seq<EdgeModel>,
    items: Seq<SourceModel>,
    class: Seq<char>,
) -> Seq<EdgeModel>
    decreases edges.len(),
{
    if edges.len() == 0 {
        seq![]
    } else {
        let kept = licensed_edges(edges.drop_last(), items, class);
        let ids = licensed(listed(edges.last().source_item_ids), items, class);
        if ids.len() == 0 {
            kept
        } else {
            kept.push(EdgeModel { source_item_ids: printed_list(ids), ..edges.last() })
        }
    }
}

/// The item of that id has the license class.
pub open spec fn has_license(items: Seq<SourceModel>, id: Seq<char>, class: Seq<char>) -> bool {
    match item_of(items, id) {
        Some(item) => item.license_class == class,
        None => false,
    }
}

proof fn lemma_licensed(
    ids: Seq<Seq<char>>,
    items: Seq<SourceModel>,
    class: Seq<char>,
    id: Seq<char>,
)
    requires
        licensed(ids, items, class).contains(id),
    ensures
        has_license(items, id, class),
    decreases ids.len(),
{
    if ids.len() > 0 {
        let kept = licensed(ids.drop_last(), items, class);
        crate::matcher::lemma_push_contains(kept, ids.last(), id);
        if kept.contains(id) {
            lemma_licensed(ids.drop_last(), items, class, id);
        }
    }
}

fn keep_licensed(items: &Vec<WmSourceItem>, ids: &Vec<String>, class: &str) -> (r: Vec<String>)
    ensures
        views(r@) == licensed(views(ids@), rows(items@), class@),
{
    let ghost all = views(ids@);
    let mut out: Vec<String> = Vec::new();
    let mut i: usize = 0;
    assert(all.take(0) =~= seq![]);
    assert(views(out@) =~= seq![]);
    while i < ids.len()
        invariant
            i <= ids@.len(),
            all == views(ids@),
            views(out@) == licensed(all.take(i as int), rows(items@), class@),
        decreases ids.len() - i,
    {
        assert(all.take(i + 1).drop_last() =~= all.take(i as int));
        assert(all.take(i + 1).last() == ids@[i as int]@);
        let ghost done = views(out@);
        if let Some(at) = find_item(items, ids[i].as_str()) {
            if str_eq(items[at].license_class.as_str(), class) {
                out.push(ids[i].clone());
                assert(views(out@) =~= done.push(all[i as int]));
            }
        }
        i += 1;
    }
    assert(all.take(i as int) =~= all);
    out
}

/// Leaves in a slice only the relations that items of a license class support, each with those
/// items only: whatever is cited from it is of that class.
pub fn filter_slice_by_license(world: &World, slice: GraphSlice, class: &str) -> (r: GraphSlice)
    ensures
        r@ == (SliceModel {
            edges: licensed_edges(slice@.edges, world@.source_items, class@),
            ..slice@
        }),
        forall|i: int, id: Seq<char>|
            0 <= i < r@.edges.len() && #[trigger] listed(r@.edges[i].source_item_ids).contains(id)
                ==> has_license(world@.source_items, id, class@),
{
    let ghost all = slice@.edges;
    let ghost items = world@.source_items;
    let mut edges: Vec<WmEdge> = Vec::new();
    let mut i: usize = 0;
    assert(all.take(0) =~= seq![]);
    assert(rows(edges@) =~= seq![]);
    while i < slice.edges.len()
        invariant
            i <= slice.edges@.len(),
            all == rows(slice.edges@),
            items == rows(world.source_items@),
            rows(edges@) == licensed_edges(all.take(i as int), items, class@),
            forall|j: int, id: Seq<char>|
                0 <= j < edges@.len() && #[trigger] listed(
                    rows(edges@)[j].source_item_ids,
                ).contains(id) ==> has_license(items, id, class@),
        decreases slice.edges.len() - i,
    {
        assert(all.take(i + 1).drop_last() =~= all.take(i as int));
        assert(all.take(i + 1).last() == slice.edges@[i as int]@);
        let ghost done = rows(edges@);
        let ids = keep_licensed(
            &world.source_items,
            &slice.edges[i].source_ids(),
            class,
        );
        assert(views(ids@).len() == ids@.len());
        if ids.len() > 0 {
            let mut e = slice.edges[i].dup();
            e.source_item_ids = print_list(&ids);
            let ghost ev = e@;
            assert(listed(ev.source_item_ids) == views(ids@));
            edges.push(e);
            assert(rows(edges@) =~= done.push(ev));
            assert(ev =~= (EdgeModel {
                source_item_ids: printed_list(views(ids@)),
                ..all[i as int]
            }));
            assert forall|j: int, id: Seq<char>|
                0 <= j < edges@.len() && #[trigger] listed(
                    rows(edges@)[j].source_item_ids,
                ).contains(id) implies has_license(items, id, class@) by {
                if j < done.len() {
                    assert(rows(edges@)[j] == done[j]);
                } else {
                    lemma_licensed(
                        listed(all[i as int].source_item_ids),
                        items,
                        class@,
                        id,
                    );
                }
            }
        }
        i += 1;
    }
    assert(all.take(i as int) =~= all);
    GraphSlice { entities: slice.entities, edges }
}

// ---------------------------------------------------------------------------------------------
// Text

/// The sources with one of the ids, as bracketed numbers in ascending order.
pub open spec fn citation(ids: Seq<Seq<char>>, refs: Seq<RefModel>) -> Seq<char>
    decreases refs.len(),
{
    if refs.len() == 0 {
        seq![]
    } else if ids.contains(refs.last().id) {
        citation(ids, refs.drop_last()) + ("["@ + decimal(refs.last().number) + "]"@)
    } else {
        citation(ids, refs.drop_last())
    }
}

/// How a relation is cited.
pub fn cite(edge: &WmEdge, sources: &Vec<SourceRef>) -> (r: String)
    ensures
        r@ == citation(listed(edge@.source_item_ids), rows(sources@)),
{
    let ids = edge.source_ids();
    let ghost all = rows(sources@);
    let ghost idv = views(ids@);
    let mut out = String::new();
    let mut i: usize = 0;
    assert(all.take(0) =~= seq![]);
    assert(out@ =~= seq![]);
    while i < sources.len()
        invariant
            i <= sources@.len(),
            all == rows(sources@),
            idv == views(ids@),
            out@ == citation(idv, all.take(i as int)),
        decreases sources.len() - i,
    {
        assert(all.take(i + 1).drop_last() =~= all.take(i as int));
        assert(all.take(i + 1).last() == sources@[i as int]@);
        if list_has(&ids, sources[i].id.as_str()) {
            let mut n = "[".to_owned();
            n.append(decimal_of(sources[i].number as u64).as_str());
            n.append("]");
            out.append(n.as_str());
        }
        i += 1;
    }
    assert(all.take(i as int) =~= all);
    out
}

/// The name of an entity of a list.
pub open spec fn name_in(es: Seq<EntityModel>, id: Seq<char>) -> Seq<char> {
    match entity_of(es, id) {
        Some(e) => e.canonical_name,
        None => "?"@,
    }
}

pub fn name_among(es: &Vec<WmEntity>, id: &str) -> (r: String)
    ensures
        r@ == name_in(rows(es@), id@),
{
    match find_entity(es, id) {
        Some(i) => es[i].canonical_name.clone(),
        None => "?".to_owned(),
    }
}

/// The line on an entity.
pub open spec fn entity_line(e: EntityModel) -> Seq<char> {
    "- ["@ + short_form(e.id, 8) + "] "@ + e.canonical_name + " (type: "@ + e.entity_type
        + ", confidence: "@ + crate::double::fixed(e.confidence, 2) + ")\n"@
}

/// The line on a relation.
pub open spec fn relation_line(
    e: EdgeModel,
    es: Seq<EntityModel>,
    refs: Seq<RefModel>,
) -> Seq<char> {
    "- "@ + name_in(es, e.from_id) + " --["@ + e.edge_type + "]--> "@ + name_in(es, e.to_id)
        + " (sources: "@ + citation(listed(e.source_item_ids), refs) + ")\n"@
}

/// A relation of that id is among them.
pub open spec fn has_edge(edges: Seq<EdgeModel>, id: Seq<char>) -> bool {
    exists|i: int| 0 <= i < edges.len() && (#[trigger] edges[i]).id == id
}

/// The relations, each once.
pub open spec fn distinct_edges(edges: Seq<EdgeModel>) -> Seq<EdgeModel>
    decreases edges.len(),
{
    if edges.len() == 0 {
        seq![]
    } else {
        let kept = distinct_edges(edges.drop_last());
        if has_edge(kept, edges.last().id) {
            kept
        } else {
            kept.push(edges.last())
        }
    }
}

/// The line on a source: number, date, title, address and license class.
pub open spec fn source_line(s: RefModel) -> Seq<char> {
    decimal(s.number) + ". "@ + (match s.published_at {
        Some(d) => short_form(d, 10) + " · "@,
        None => seq![],
    }) + (if s.title.len() == 0 {
        "(untitled)"@
    } else {
        s.title
    }) + " — "@ + s.source_ref + " ("@ + s.license_class + ")\n"@
}

/// The context that a slice gives: its entities, and its relations with their citations.
pub open spec fn context_text(slice: SliceModel, refs: Seq<RefModel>) -> Seq<char> {
    "KNOWN ENTITIES:\n"@ + flat(slice.entities.map_values(|e: EntityModel| entity_line(e)))
        + "\nRELATIONS:\n"@ + flat(
        distinct_edges(slice.edges).map_values(
            |e: EdgeModel| relation_line(e, slice.entities, refs),
        ),
    )
}

/// The list of sources.
pub open spec fn sources_text(refs: Seq<RefModel>) -> Seq<char> {
    flat(refs.map_values(|s: RefModel| source_line(s)))
}

fn write_entity(e: &WmEntity) -> (r: String)
    ensures
        r@ == entity_line(e@),
{
    let mut m = "- [".to_owned();
    m.append(shorten(e.id.as_str(), 8).as_str());
    m.append("] ");
    m.append(e.canonical_name.as_str());
    m.append(" (type: ");
    m.append(e.entity_type.as_str());
    m.append(", confidence: ");
    m.append(e.confidence.to_fixed(2).as_str());
    m.append(")\n");
    m
}

fn write_relation(e: &WmEdge, es: &Vec<WmEntity>, sources: &Vec<SourceRef>) -> (r: String)
    ensures
        r@ == relation_line(e@, rows(es@), rows(sources@)),
{
    let mut m = "- ".to_owned();
    m.append(name_among(es, e.from_id.as_str()).as_str());
    m.append(" --[");
    m.append(e.edge_type.as_str());
    m.append("]--> ");
    m.append(name_among(es, e.to_id.as_str()).as_str());
    m.append(" (sources: ");
    m.append(cite(e, sources).as_str());
    m.append(")\n");
    m
}

fn write_source(s: &SourceRef) -> (r: String)
    ensures
        r@ == source_line(s@),
{
    let mut m = decimal_of(s.number as u64);
    m.append(". ");
    match &s.published_at {
        Some(d) => {
            let mut day = shorten(d.as_str(), 10);
            day.append(" · ");
            m.append(day.as_str());
        },
        None => {
            m.append(String::new().as_str());
        },
    }
    if s.title.as_str().is_empty() {
        m.append("(untitled)");
    } else {
        m.append(s.title.as_str());
    }
    m.append(" — ");
    m.append(s.source_ref.as_str());
    m.append(" (");
    m.append(s.license_class.as_str());
    m.append(")\n");
    m
}

/// Writes the list of sources.
pub fn list_sources(sources: &Vec<SourceRef>) -> (r: String)
    ensures
        r@ == sources_text(rows(sources@)),
{
    let ghost goal = rows(sources@).map_values(|s: RefModel| source_line(s));
    let mut lines: Vec<String> = Vec::new();
    let mut i: usize = 0;
    while i < sources.len()
        invariant
            i <= sources@.len(),
            goal == rows(sources@).map_values(|s: RefModel| source_line(s)),
            lines@.len() == i,
            forall|j: int| 0 <= j < i ==> (#[trigger] lines@[j])@ == goal[j],
        decreases sources.len() - i,
    {
        lines.push(write_source(&sources[i]));
        i += 1;
    }
    assert(views(lines@) =~= goal);
    flatten(&lines)
}

/// The relations of a list, each once.
pub fn each_once(edges: &Vec<WmEdge>) -> (r: Vec<WmEdge>)
    ensures
        rows(r@) == distinct_edges(rows(edges@)),
{
    let ghost all = rows(edges@);
    let mut out: Vec<WmEdge> = Vec::new();
    let mut i: usize = 0;
    assert(all.take(0) =~= seq![]);
    assert(rows(out@) =~= seq![]);
    while i < edges.len()
        invariant
            i <= edges@.len(),
            all == rows(edges@),
            rows(out@) == distinct_edges(all.take(i as int)),
        decreases edges.len() - i,
    {
        assert(all.take(i + 1).drop_last() =~= all.take(i as int));
        assert(all.take(i + 1).last() == edges@[i as int]@);
        let ghost done = rows(out@);
        let mut seen = false;
        let mut k: usize = 0;
        while k < out.len()
            invariant
                k <= out@.len(),
                i < edges@.len(),
                done == rows(out@),
                seen ==> has_edge(done, edges@[i as int].id@),
                !seen ==> forall|j: int|
                    0 <= j < k ==> (#[trigger] done[j]).id != edges@[i as int].id@,
            decreases out.len() - k,
        {
            assert(done[k as int].id == out@[k as int].id@);
            if str_eq(out[k].id.as_str(), edges[i].id.as_str()) {
                seen = true;
            }
            k += 1;
        }
        if !seen {
            out.push(edges[i].dup());
            assert(rows(out@) =~= done.push(all[i as int]));
        }
        i += 1;
    }
    assert(all.take(i as int) =~= all);
    out
}

/// The context that a slice gives and the list of its sources.
pub fn format_context(slice: &GraphSlice, sources: &Vec<SourceRef>) -> (r: (String, String))
    ensures
        r.0@ == context_text(slice@, rows(sources@)),
        r.1@ == sources_text(rows(sources@)),
{
    let ghost eg = slice@.entities.map_values(|e: EntityModel| entity_line(e));
    let mut lines: Vec<String> = Vec::new();
    let mut i: usize = 0;
    while i < slice.entities.len()
        invariant
            i <= slice.entities@.len(),
            eg == rows(slice.entities@).map_values(|e: EntityModel| entity_line(e)),
            lines@.len() == i,
            forall|j: int| 0 <= j < i ==> (#[trigger] lines@[j])@ == eg[j],
        decreases slice.entities.len() - i,
    {
        lines.push(write_entity(&slice.entities[i]));
        i += 1;
    }
    assert(views(lines@) =~= eg);
    let edges = each_once(&slice.edges);
    let ghost es = slice@.entities;
    let ghost refs = rows(sources@);
    let ghost rg = rows(edges@).map_values(|e: EdgeModel| relation_line(e, es, refs));
    let mut relations: Vec<String> = Vec::new();
    let mut k: usize = 0;
    while k < edges.len()
        invariant
            k <= edges@.len(),
            es == rows(slice.entities@),
            refs == rows(sources@),
            rg == rows(edges@).map_values(|e: EdgeModel| relation_line(e, es, refs)),
            relations@.len() == k,
            forall|j: int| 0 <= j < k ==> (#[trigger] relations@[j])@ == rg[j],
        decreases edges.len() - k,
    {
        relations.push(write_relation(&edges[k], &slice.entities, sources));
        k += 1;
    }
    assert(views(relations@) =~= rg);
    let mut out = "KNOWN ENTITIES:\n".to_owned();
    out.append(flatten(&lines).as_str());
    out.append("\nRELATIONS:\n");
    out.append(flatten(&relations).as_str());
    (out, list_sources(sources))
}

// ---------------------------------------------------------------------------------------------
// Questions

/// What the model is told.
pub const ASK_SYSTEM_PROMPT: &'static str = "You answer questions using ONLY the provided entity/relation context. If the context does not contain the answer, say so plainly; do not guess or use outside knowledge. Cite entity names exactly as they appear in the context, and sources by bracketed number after each claim.";

/// What is said where no entity matches.
pub const NO_MATCH: &'static str = "No entities in the graph match this question yet; ingest and resolve more content first.";

/// How long an answer may be, in tokens.
pub const ASK_TOKENS: u64 = 1024;

/// What a question comes to: the words for the model and the list of sources to put behind its
/// answer, or nothing where no entity matches.
#[derive(Debug)]
pub struct Inquiry {
    pub prompt: String,
    pub sources: String,
}

/// The ids of the entities.
pub open spec fn ids_of(es: Seq<EntityModel>) -> Seq<Seq<char>> {
    Seq::new(es.len(), |i: int| es[i].id)
}

/// What a question comes to, given the entities it is taken to be about. Without a time it is
/// answered from the relations that are in force.
pub open spec fn inquiry(
    w: WorldModel,
    seeds: Seq<EntityModel>,
    question: Seq<char>,
    as_of: Option<Seq<char>>,
    license: Option<Seq<char>>,
) -> Option<(Seq<char>, Seq<char>)> {
    if seeds.len() == 0 {
        None
    } else {
        let slice = scoped(w, ids_of(seeds), DEFAULT_DEPTH as nat, as_asked(as_of), license);
        let refs = numbered(cited_ids(slice.edges), w.source_items);
        Some(
            (
                "CONTEXT:\n"@ + context_text(slice, refs) + "\n\nQUESTION: "@ + question,
                sources_text(refs),
            ),
        )
    }
}

/// The slice within `depth` steps of the seeds, at a moment, with sources of a license class.
pub open spec fn scoped(
    w: WorldModel,
    seeds: Seq<Seq<char>>,
    depth: nat,
    moment: MomentModel,
    license: Option<Seq<char>>,
) -> SliceModel {
    let slice = slice_of(w, seeds, depth, moment);
    match license {
        Some(class) => SliceModel {
            edges: licensed_edges(slice.edges, w.source_items, class),
            ..slice
        },
        None => slice,
    }
}

proof fn lemma_cited(edges: Seq<EdgeModel>, id: Seq<char>)
    requires
        cited_ids(edges).contains(id),
    ensures
        exists|i: int|
            0 <= i < edges.len() && #[trigger] listed(edges[i].source_item_ids).contains(id),
    decreases edges.len(),
{
    if edges.len() > 0 {
        let most = edges.drop_last();
        let ids = listed(edges.last().source_item_ids);
        let all = cited_ids(most) + ids;
        let k = choose|k: int| 0 <= k < all.len() && all[k] == id;
        if k < cited_ids(most).len() {
            assert(cited_ids(most)[k] == id);
            lemma_cited(most, id);
            let i = choose|i: int|
                0 <= i < most.len() && #[trigger] listed(most[i].source_item_ids).contains(id);
            assert(listed(edges[i].source_item_ids).contains(id));
        } else {
            assert(ids[k - cited_ids(most).len()] == id);
            assert(listed(edges[edges.len() - 1].source_item_ids).contains(id));
        }
    }
}

proof fn lemma_numbered(ids: Seq<Seq<char>>, items: Seq<SourceModel>, k: int)
    requires
        0 <= k < numbered(ids, items).len(),
    ensures
        exists|j: int|
            0 <= j < ids.len() && item_of(items, #[trigger] ids[j]) is Some && numbered(
                ids,
                items,
            )[k] == ref_of(item_of(items, ids[j])->0, (k + 1) as nat),
    decreases ids.len(),
{
    if ids.len() > 0 {
        let most = ids.drop_last();
        if k < numbered(most, items).len() {
            lemma_numbered(most, items, k);
            let j = choose|j: int|
                0 <= j < most.len() && item_of(items, #[trigger] most[j]) is Some && numbered(
                    most,
                    items,
                )[k] == ref_of(item_of(items, most[j])->0, (k + 1) as nat);
            assert(ids[j] == most[j]);
        } else {
            assert(ids[ids.len() - 1] == ids.last());
        }
    }
}

/// The slice that lies within `depth` steps of the seeds, and its sources. Under a license class
/// every one of them is of that class.
pub fn scoped_slice(
    world: &World,
    seeds: &Vec<String>,
    depth: usize,
    moment: Moment,
    license: Option<&str>,
) -> (r: (GraphSlice, Vec<SourceRef>))
    ensures
        r.0@ == scoped(world@, views(seeds@), depth as nat, moment@, opt_str(license)),
        rows(r.1@) == numbered(cited_ids(r.0@.edges), world@.source_items),
        match opt_str(license) {
            Some(class) => forall|k: int|
                0 <= k < r.1@.len() ==> (#[trigger] r.1@[k]).license_class@ == class,
            None => true,
        },
{
    let slice = walk_from(world, seeds, depth, moment);
    match license {
        Some(class) => {
            let slice = filter_slice_by_license(world, slice, class);
            let refs = load_sources(world, &slice);
            proof {
                let items = world@.source_items;
                let ids = cited_ids(slice@.edges);
                assert(rows(refs@).len() == refs@.len());
                assert forall|k: int| 0 <= k < refs@.len() implies (#[trigger] refs@[k])
                    .license_class@ == class@ by {
                    assert(rows(refs@)[k] == refs@[k]@);
                    lemma_numbered(ids, items, k);
                    let j = choose|j: int|
                        0 <= j < ids.len() && item_of(items, #[trigger] ids[j]) is Some
                            && numbered(ids, items)[k] == ref_of(
                            item_of(items, ids[j])->0,
                            (k + 1) as nat,
                        );
                    assert(ids.contains(ids[j]));
                    lemma_cited(slice@.edges, ids[j]);
                    let i = choose|i: int|
                        0 <= i < slice@.edges.len() && #[trigger] listed(
                            slice@.edges[i].source_item_ids,
                        ).contains(ids[j]);
                    assert(has_license(items, ids[j], class@));
                }
            }
            (slice, refs)
        },
        None => {
            let refs = load_sources(world, &slice);
            (slice, refs)
        },
    }
}

/// Prepares a question on the given entities.
pub fn inquire(
    world: &World,
    seeds: &Vec<WmEntity>,
    question: &str,
    as_of: Option<&str>,
    license: Option<&str>,
) -> (r: Option<Inquiry>)
    ensures
        match r {
            Some(q) => inquiry(
                world@,
                rows(seeds@),
                question@,
                opt_str(as_of),
                opt_str(license),
            ) == Some((q.prompt@, q.sources@)),
            None => inquiry(
                world@,
                rows(seeds@),
                question@,
                opt_str(as_of),
                opt_str(license),
            ) is None,
        },
{
    assert(rows(seeds@).len() == seeds@.len());
    if seeds.len() == 0 {
        return None;
    }
    let ghost goal = ids_of(rows(seeds@));
    let mut ids: Vec<String> = Vec::new();
    let mut i: usize = 0;
    while i < seeds.len()
        invariant
            i <= seeds@.len(),
            goal == ids_of(rows(seeds@)),
            ids@.len() == i,
            forall|j: int| 0 <= j < i ==> (#[trigger] ids@[j])@ == goal[j],
        decreases seeds.len() - i,
    {
        ids.push(seeds[i].id.clone());
        i += 1;
    }
    assert(views(ids@) =~= goal);
    let (slice, refs) = scoped_slice(world, &ids, DEFAULT_DEPTH, moment_asked(as_of), license);
    let (ctx, sources) = format_context(&slice, &refs);
    let mut prompt = "CONTEXT:\n".to_owned();
    prompt.append(ctx.as_str());
    prompt.append("\n\nQUESTION: ");
    prompt.append(question);
    Some(Inquiry { prompt, sources })
}

/// Prepares a question: the entities that match it, the graph around them as it is or as it was at
/// a time, and the words for the model. A license class leaves only the sources of that class to
/// cite.
pub fn ask(world: &World, question: &str, as_of: Option<&str>, license: Option<&str>) -> (r: Option<
    Inquiry,
>)
    ensures
        ({
            let seeds = seeds_by(live(world@.entities), fits(live(world@.entities), question@));
            match r {
                Some(q) => inquiry(
                    world@,
                    seeds,
                    question@,
                    opt_str(as_of),
                    opt_str(license),
                ) == Some((q.prompt@, q.sources@)),
                None => inquiry(
                    world@,
                    seeds,
                    question@,
                    opt_str(as_of),
                    opt_str(license),
                ) is None,
            }
        }),
{
    let seeds = find_matching_entities(world, question);
    inquire(world, &seeds, question, as_of, license)
}

/// The answer as it is given out: the model's words, then the numbered list of sources.
pub fn answer(reply: &str, sources: &str) -> (r: String)
    ensures
        r@ == if sources@.len() == 0 {
            reply@
        } else {
            reply@ + "\n\nSources:\n"@ + sources@
        },
{
    let mut out = reply.to_owned();
    if !sources.is_empty() {
        out.append("\n\nSources:\n");
        out.append(sources);
    }
    out
}

} // verus!
