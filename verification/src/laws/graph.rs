//! The graph: what a walk reaches, and which sources are cited for it.

use vstd::prelude::*;

use crate::context::{
    around, cited_ids, distinct_edges, entities_met, followed, has_edge, has_ref, is_passable,
    lemma_used, lemma_walk, licensed, licensed_edges, neighbor, numbered, passable, round,
    slice_of, touching, walk, within, MomentModel, RefModel, WalkModel,
};
use crate::laws::lists::lemma_push_has;
use crate::models::{listed, printed_list, EdgeModel, EntityModel, SourceModel};
use crate::text::before;
use crate::world::{item_of, WorldModel};

verus! {

// ---------------------------------------------------------------------------------------------
// The walk

/// The edge joins the two entities, in either direction.
pub open spec fn joins(e: EdgeModel, a: Seq<char>, b: Seq<char>) -> bool {
    (e.from_id == a && e.to_id == b) || (e.from_id == b && e.to_id == a)
}

/// The relation was in force: at all, now, or at a time that is not before it began and before it
/// ended.
pub open spec fn in_force(e: EdgeModel, moment: MomentModel) -> bool {
    match moment {
        MomentModel::Ever => true,
        MomentModel::Present => e.invalid_at is None,
        MomentModel::At(t) => (e.valid_at is None || !before(t, e.valid_at->0)) && (e.invalid_at
            is None || before(t, e.invalid_at->0)),
    }
}

/// There is a live entity of that id.
pub open spec fn lives(w: WorldModel, id: Seq<char>) -> bool {
    exists|i: int| 0 <= i < w.entities.len() && (#[trigger] w.entities[i]).id == id
        && w.entities[i].is_live
}

proof fn lemma_around_uses(w: WalkModel, edges: Seq<EdgeModel>, id: Seq<char>, e: EdgeModel)
    ensures
        w.used.contains(e) ==> around(w, edges, id).used.contains(e),
        edges.contains(e) && neighbor(e, id) is Some ==> around(w, edges, id).used.contains(e),
    decreases edges.len(),
{
    if edges.len() > 0 {
        let most = edges.drop_last();
        lemma_around_uses(w, most, id, e);
        let mid = around(w, most, id);
        lemma_push_has(mid.used, edges.last(), e);
        assert(edges =~= most.push(edges.last()));
        lemma_push_has(most, edges.last(), e);
    }
}

proof fn lemma_round_uses(
    w: WalkModel,
    edges: Seq<EdgeModel>,
    level: Seq<Seq<char>>,
    e: EdgeModel,
    id: Seq<char>,
)
    ensures
        w.used.contains(e) ==> round(w, edges, level).used.contains(e),
        level.contains(id) && edges.contains(e) && neighbor(e, id) is Some ==> round(
            w,
            edges,
            level,
        ).used.contains(e),
    decreases level.len(),
{
    if level.len() > 0 {
        let most = level.drop_last();
        lemma_round_uses(w, edges, most, e, id);
        lemma_around_uses(round(w, edges, most), edges, level.last(), e);
        assert(level =~= most.push(level.last()));
        lemma_push_has(most, level.last(), id);
    }
}

proof fn lemma_followed_grows(w: WalkModel, e: EdgeModel, id: Seq<char>, x: Seq<char>)
    ensures
        w.visited.contains(x) ==> followed(w, e, id).visited.contains(x),
        followed(w, e, id).visited.contains(x) && !w.visited.contains(x) ==> followed(
            w,
            e,
            id,
        ).next.contains(x),
        w.next.contains(x) ==> followed(w, e, id).next.contains(x),
{
    if let Some(n) = neighbor(e, id) {
        lemma_push_has(w.visited, n, x);
        lemma_push_has(w.next, n, x);
    }
}

proof fn lemma_around_grows(w: WalkModel, edges: Seq<EdgeModel>, id: Seq<char>, x: Seq<char>)
    ensures
        w.visited.contains(x) ==> around(w, edges, id).visited.contains(x),
        around(w, edges, id).visited.contains(x) && !w.visited.contains(x) ==> around(
            w,
            edges,
            id,
        ).next.contains(x),
        w.next.contains(x) ==> around(w, edges, id).next.contains(x),
    decreases edges.len(),
{
    if edges.len() > 0 {
        lemma_around_grows(w, edges.drop_last(), id, x);
        lemma_followed_grows(around(w, edges.drop_last(), id), edges.last(), id, x);
    }
}

proof fn lemma_round_grows(
    w: WalkModel,
    edges: Seq<EdgeModel>,
    level: Seq<Seq<char>>,
    x: Seq<char>,
)
    ensures
        w.visited.contains(x) ==> round(w, edges, level).visited.contains(x),
        round(w, edges, level).visited.contains(x) && !w.visited.contains(x) ==> round(
            w,
            edges,
            level,
        ).next.contains(x),
        w.next.contains(x) ==> round(w, edges, level).next.contains(x),
    decreases level.len(),
{
    if level.len() > 0 {
        lemma_round_grows(w, edges, level.drop_last(), x);
        lemma_around_grows(round(w, edges, level.drop_last()), edges, level.last(), x);
    }
}

/// What lies behind a walk has been followed.
proof fn lemma_walk_uses(
    edges: Seq<EdgeModel>,
    seeds: Seq<Seq<char>>,
    depth: nat,
    e: EdgeModel,
    id: Seq<char>,
)
    requires
        edges.contains(e),
        neighbor(e, id) is Some,
    ensures
        ({
            let w = walk(edges, seeds, depth);
            w.visited.contains(id) && !w.next.contains(id) ==> w.used.contains(e)
        }),
        depth > 0 && walk(edges, seeds, (depth - 1) as nat).visited.contains(id) ==> walk(
            edges,
            seeds,
            depth,
        ).used.contains(e),
    decreases depth,
{
    if depth > 0 {
        let d = (depth - 1) as nat;
        let w = walk(edges, seeds, d);
        let begin = WalkModel { next: seq![], ..w };
        lemma_walk_uses(edges, seeds, d, e, id);
        lemma_round_uses(begin, edges, w.next, e, id);
        lemma_round_grows(begin, edges, w.next, id);
    }
}

proof fn lemma_passable_is(
    edges: Seq<EdgeModel>,
    es: Seq<EntityModel>,
    seeds: Seq<Seq<char>>,
    moment: MomentModel,
    e: EdgeModel,
)
    ensures
        passable(edges, es, seeds, moment).contains(e) <==> edges.contains(e) && is_passable(
            e,
            es,
            seeds,
            moment,
        ),
    decreases edges.len(),
{
    if edges.len() > 0 {
        let most = edges.drop_last();
        lemma_passable_is(most, es, seeds, moment, e);
        assert(edges =~= most.push(edges.last()));
        lemma_push_has(most, edges.last(), e);
        lemma_push_has(passable(most, es, seeds, moment), edges.last(), e);
    }
}

proof fn lemma_entities_met_is(
    es: Seq<EntityModel>,
    seeds: Seq<Seq<char>>,
    met: Seq<Seq<char>>,
    e: EntityModel,
)
    ensures
        entities_met(es, seeds, met).contains(e) <==> es.contains(e) && met.contains(e.id) && (
        e.is_live || seeds.contains(e.id)),
    decreases es.len(),
{
    if es.len() > 0 {
        let most = es.drop_last();
        lemma_entities_met_is(most, seeds, met, e);
        assert(es =~= most.push(es.last()));
        lemma_push_has(most, es.last(), e);
        lemma_push_has(entities_met(most, seeds, met), es.last(), e);
    }
}

/// A walk meets what it sets out from, and with each step the neighbours of what it has met: an
/// entity of the slice and a live one that a relation in force joins it with are in the slice of
/// one step more, and so is the relation. Nothing that was in the slice is lost.
pub proof fn law_each_step_meets_the_neighbours(
    w: WorldModel,
    seeds: Seq<Seq<char>>,
    depth: nat,
    moment: MomentModel,
    a: EntityModel,
    b: EntityModel,
    e: EdgeModel,
)
    requires
        w.entities.contains(a),
        w.entities.contains(b),
    ensures
        ({
            let near = slice_of(w, seeds, depth, moment);
            let far = slice_of(w, seeds, depth + 1, moment);
            &&& seeds.contains(a.id) ==> near.entities.contains(a)
            &&& near.entities.contains(a) ==> far.entities.contains(a)
            &&& near.entities.contains(a) && w.edges.contains(e) && in_force(e, moment) && joins(
                e,
                a.id,
                b.id,
            ) && b.is_live ==> far.entities.contains(b) && far.edges.contains(e)
            &&& depth == 0 ==> (near.entities.contains(b) ==> seeds.contains(b.id))
                && near.edges.len() == 0
            &&& far.entities.contains(b) && !near.entities.contains(b) ==> exists|x: EdgeModel|
                #[trigger] w.edges.contains(x) && in_force(x, moment) && (x.from_id == b.id
                    || x.to_id == b.id)
        }),
{
    let edges = passable(w.edges, w.entities, seeds, moment);
    let near = walk(edges, seeds, depth);
    let far = walk(edges, seeds, depth + 1);
    lemma_walk(edges, seeds, depth);
    lemma_walk(edges, seeds, depth + 1);
    lemma_entities_met_is(w.entities, seeds, near.visited, a);
    lemma_entities_met_is(w.entities, seeds, far.visited, a);
    lemma_entities_met_is(w.entities, seeds, near.visited, b);
    lemma_entities_met_is(w.entities, seeds, far.visited, b);
    lemma_passable_is(w.edges, w.entities, seeds, moment, e);
    assert(near.visited.contains(a.id) ==> far.visited.contains(a.id)) by {
        assert(within(edges, seeds, depth, a.id) ==> within(edges, seeds, depth + 1, a.id));
    }
    if seeds.contains(a.id) {
        lemma_seeds_within(edges, seeds, depth, a.id);
    }
    if near.visited.contains(a.id) && (a.is_live || seeds.contains(a.id)) && w.edges.contains(e)
        && in_force(e, moment) && joins(e, a.id, b.id) && b.is_live {
        let i = choose|i: int| 0 <= i < w.entities.len() && w.entities[i] == a;
        let j = choose|j: int| 0 <= j < w.entities.len() && w.entities[j] == b;
        assert(w.entities[i].id == a.id && w.entities[j].id == b.id);
        assert(is_passable(e, w.entities, seeds, moment));
        assert(neighbor(e, a.id) == Some(b.id));
        let k = choose|k: int| 0 <= k < edges.len() && edges[k] == e;
        assert(neighbor(edges[k], a.id) == Some(b.id));
        assert(touching(edges, a.id, b.id));
        assert(within(edges, seeds, depth + 1, b.id));
        lemma_walk_uses(edges, seeds, depth + 1, e, a.id);
    }
    if far.visited.contains(b.id) && !near.visited.contains(b.id) {
        assert(within(edges, seeds, depth + 1, b.id));
        let y = choose|y: Seq<char>|
            #[trigger] touching(edges, y, b.id) && within(edges, seeds, depth, y);
        let i = choose|i: int| 0 <= i < edges.len() && neighbor(#[trigger] edges[i], y) == Some(b.id);
        let x = edges[i];
        lemma_passable_is(w.edges, w.entities, seeds, moment, x);
        assert(edges.contains(x));
        assert(w.edges.contains(x));
    }
}

proof fn lemma_seeds_within(edges: Seq<EdgeModel>, seeds: Seq<Seq<char>>, n: nat, x: Seq<char>)
    requires
        seeds.contains(x),
    ensures
        within(edges, seeds, n, x),
    decreases n,
{
    if n > 0 {
        lemma_seeds_within(edges, seeds, (n - 1) as nat, x);
    }
}

/// What is in a slice: stored entities that live or were asked for, and stored relations that are
/// in force at that moment between such entities.
pub proof fn law_slice_holds_only_what_is_in_force(
    w: WorldModel,
    seeds: Seq<Seq<char>>,
    depth: nat,
    moment: MomentModel,
    a: EntityModel,
    e: EdgeModel,
)
    ensures
        ({
            let slice = slice_of(w, seeds, depth, moment);
            &&& slice.entities.contains(a) ==> w.entities.contains(a) && (a.is_live
                || seeds.contains(a.id))
            &&& slice.edges.contains(e) ==> w.edges.contains(e) && in_force(e, moment) && (lives(
                w,
                e.from_id,
            ) || seeds.contains(e.from_id)) && (lives(w, e.to_id) || seeds.contains(e.to_id))
        }),
{
    let edges = passable(w.edges, w.entities, seeds, moment);
    let end = walk(edges, seeds, depth);
    lemma_entities_met_is(w.entities, seeds, end.visited, a);
    if end.used.contains(e) {
        lemma_used(edges, seeds, depth, e);
        lemma_passable_is(w.edges, w.entities, seeds, moment, e);
    }
}

// ---------------------------------------------------------------------------------------------
// Sources

/// The stored item of that id, the first one, has the license class.
pub open spec fn is_licensed(items: Seq<SourceModel>, id: Seq<char>, class: Seq<char>) -> bool {
    item_of(items, id) matches Some(item) && item.license_class == class
}

proof fn lemma_item_of(items: Seq<SourceModel>, id: Seq<char>)
    ensures
        item_of(items, id) is Some <==> exists|i: int|
            0 <= i < items.len() && (#[trigger] items[i]).id == id,
        item_of(items, id) matches Some(item) ==> item.id == id && items.contains(item),
    decreases items.len(),
{
    if items.len() > 0 && items[0].id != id {
        let rest = items.drop_first();
        lemma_item_of(rest, id);
        if exists|i: int| 0 <= i < rest.len() && (#[trigger] rest[i]).id == id {
            let i = choose|i: int| 0 <= i < rest.len() && (#[trigger] rest[i]).id == id;
            assert(items[i + 1].id == id);
        }
        if exists|i: int| 0 <= i < items.len() && (#[trigger] items[i]).id == id {
            let i = choose|i: int| 0 <= i < items.len() && (#[trigger] items[i]).id == id;
            assert(rest[i - 1].id == id);
        }
        if let Some(item) = item_of(rest, id) {
            let k = choose|k: int| 0 <= k < rest.len() && rest[k] == item;
            assert(items[k + 1] == item);
        }
    } else if items.len() > 0 {
        assert(items.contains(items[0]));
    }
}

/// The sources that a license scope leaves are those of the class, and none other.
pub proof fn law_scope_leaves_the_licensed(
    ids: Seq<Seq<char>>,
    items: Seq<SourceModel>,
    class: Seq<char>,
    x: Seq<char>,
)
    ensures
        licensed(ids, items, class).contains(x) <==> ids.contains(x) && is_licensed(
            items,
            x,
            class,
        ),
        licensed(ids, items, class).len() <= ids.len(),
    decreases ids.len(),
{
    if ids.len() > 0 {
        let most = ids.drop_last();
        law_scope_leaves_the_licensed(most, items, class, x);
        assert(ids =~= most.push(ids.last()));
        lemma_push_has(most, ids.last(), x);
        lemma_push_has(licensed(most, items, class), ids.last(), x);
    } else {
        assert(!ids.contains(x));
    }
}

/// Under a license scope a relation stays exactly where one of its sources is of the class, with
/// those of its sources that are, and otherwise as it is.
pub proof fn law_scoped_relations(
    edges: Seq<EdgeModel>,
    items: Seq<SourceModel>,
    class: Seq<char>,
    e: EdgeModel,
)
    ensures
        ({
            let kept = licensed_edges(edges, items, class);
            &&& kept.contains(e) ==> exists|i: int|
                0 <= i < edges.len() && e == (EdgeModel {
                    source_item_ids: printed_list(
                        licensed(listed(edges[i].source_item_ids), items, class),
                    ),
                    ..#[trigger] edges[i]
                }) && exists|x: Seq<char>| #[trigger]
                    listed(edges[i].source_item_ids).contains(x) && is_licensed(items, x, class)
            &&& edges.contains(e) && (exists|x: Seq<char>| #[trigger]
                listed(e.source_item_ids).contains(x) && is_licensed(items, x, class))
                ==> kept.contains(
                EdgeModel {
                    source_item_ids: printed_list(
                        licensed(listed(e.source_item_ids), items, class),
                    ),
                    ..e
                },
            )
        }),
    decreases edges.len(),
{
    if edges.len() > 0 {
        let most = edges.drop_last();
        let last = edges.last();
        let n = edges.len() - 1;
        let before = licensed_edges(most, items, class);
        let kept = licensed_edges(edges, items, class);
        law_scoped_relations(most, items, class, e);
        let ids = licensed(listed(last.source_item_ids), items, class);
        let row = EdgeModel { source_item_ids: printed_list(ids), ..last };
        assert(edges =~= most.push(last));
        lemma_push_has(most, last, e);
        assert(ids.len() > 0 <==> exists|x: Seq<char>| #[trigger]
            listed(last.source_item_ids).contains(x) && is_licensed(items, x, class)) by {
            if ids.len() > 0 {
                assert(ids.contains(ids[0]));
                law_scope_leaves_the_licensed(
                    listed(last.source_item_ids),
                    items,
                    class,
                    ids[0],
                );
            }
            if exists|x: Seq<char>| #[trigger]
                listed(last.source_item_ids).contains(x) && is_licensed(items, x, class) {
                let x = choose|x: Seq<char>| #[trigger]
                    listed(last.source_item_ids).contains(x) && is_licensed(items, x, class);
                law_scope_leaves_the_licensed(listed(last.source_item_ids), items, class, x);
            }
        }
        let mine = EdgeModel {
            source_item_ids: printed_list(licensed(listed(e.source_item_ids), items, class)),
            ..e
        };
        lemma_push_has(before, row, e);
        lemma_push_has(before, row, mine);
        if kept.contains(e) {
            if before.contains(e) {
                let i = choose|i: int|
                    0 <= i < most.len() && e == (EdgeModel {
                        source_item_ids: printed_list(
                            licensed(listed(most[i].source_item_ids), items, class),
                        ),
                        ..#[trigger] most[i]
                    }) && exists|x: Seq<char>| #[trigger]
                        listed(most[i].source_item_ids).contains(x) && is_licensed(
                            items,
                            x,
                            class,
                        );
                assert(edges[i] == most[i]);
            } else {
                assert(edges[n] == last);
            }
        }
    }
}

/// The numbered sources: each cited source that is stored has a number of its own, no other source
/// has one, and they count from one in their order.
pub proof fn law_sources_are_numbered(
    ids: Seq<Seq<char>>,
    items: Seq<SourceModel>,
    id: Seq<char>,
)
    ensures
        ({
            let refs = numbered(ids, items);
            &&& has_ref(refs, id) <==> ids.contains(id) && item_of(items, id) is Some
            &&& forall|i: int|
                0 <= i < refs.len() ==> (#[trigger] refs[i]).number == i + 1 && is_ref_of(
                    refs[i],
                    item_of(items, refs[i].id)->0,
                ) && item_of(items, refs[i].id) is Some
            &&& forall|i: int, j: int|
                0 <= i < j < refs.len() ==> (#[trigger] refs[i]).id != (#[trigger] refs[j]).id
        }),
    decreases ids.len(),
{
    if ids.len() > 0 {
        let most = ids.drop_last();
        let last = ids.last();
        law_sources_are_numbered(most, items, id);
        law_sources_are_numbered(most, items, last);
        assert(ids =~= most.push(last));
        lemma_push_has(most, last, id);
        let before = numbered(most, items);
        let refs = numbered(ids, items);
        lemma_item_of(items, last);
        if let Some(item) = item_of(items, last) {
            if !has_ref(before, last) {
                let n = before.len() as int;
                assert(refs[n].id == last);
                assert(has_ref(refs, last));
                if has_ref(before, id) {
                    let k = choose|k: int| 0 <= k < before.len() && (#[trigger] before[k]).id == id;
                    assert(refs[k].id == id);
                }
                if has_ref(refs, id) && id != last {
                    let k = choose|k: int| 0 <= k < refs.len() && (#[trigger] refs[k]).id == id;
                    assert(before[k].id == id);
                }
                assert forall|i: int, j: int| 0 <= i < j < refs.len() implies (
                #[trigger] refs[i]).id != (#[trigger] refs[j]).id by {
                    assert(before[i] == refs[i]);
                    if j < n {
                        assert(before[j] == refs[j]);
                    }
                }
                assert forall|i: int| 0 <= i < refs.len() implies (#[trigger] refs[i]).number == i
                    + 1 && is_ref_of(refs[i], item_of(items, refs[i].id)->0) && item_of(
                    items,
                    refs[i].id,
                ) is Some by {
                    if i < n {
                        assert(before[i] == refs[i]);
                    }
                }
            }
        }
    } else {
        assert(!ids.contains(id));
    }
}

/// The entry shows the source as it is stored.
pub open spec fn is_ref_of(r: RefModel, item: SourceModel) -> bool {
    &&& r.id == item.id
    &&& r.source_ref == item.source_ref
    &&& r.license_class == item.license_class
    &&& r.published_at == item.published_at
    &&& item.title is Some ==> r.title == item.title->0
    &&& item.title is None ==> r.title.len() == 0
}

/// Each relation is shown once.
pub proof fn law_relations_are_shown_once(edges: Seq<EdgeModel>, id: Seq<char>)
    ensures
        has_edge(distinct_edges(edges), id) <==> has_edge(edges, id),
        forall|i: int, j: int|
            0 <= i < j < distinct_edges(edges).len() ==> (#[trigger] distinct_edges(edges)[i]).id
                != (#[trigger] distinct_edges(edges)[j]).id,
    decreases edges.len(),
{
    if edges.len() > 0 {
        let most = edges.drop_last();
        let last = edges.last();
        law_relations_are_shown_once(most, id);
        law_relations_are_shown_once(most, last.id);
        let before = distinct_edges(most);
        let kept = distinct_edges(edges);
        assert(edges[edges.len() - 1] == last);
        if has_edge(most, id) {
            let k = choose|k: int| 0 <= k < most.len() && (#[trigger] most[k]).id == id;
            assert(edges[k].id == id);
        }
        if has_edge(edges, id) && last.id != id {
            let k = choose|k: int| 0 <= k < edges.len() && (#[trigger] edges[k]).id == id;
            assert(most[k].id == id);
        }
        if !has_edge(before, last.id) {
            assert(kept[before.len() as int].id == last.id);
            if has_edge(before, id) {
                let k = choose|k: int| 0 <= k < before.len() && (#[trigger] before[k]).id == id;
                assert(kept[k].id == id);
            }
            if has_edge(kept, id) && last.id != id {
                let k = choose|k: int| 0 <= k < kept.len() && (#[trigger] kept[k]).id == id;
                assert(before[k].id == id);
            }
        }
    }
}

/// What is cited for relations: every source of every one of them, and no other.
pub proof fn law_every_source_is_cited(edges: Seq<EdgeModel>, id: Seq<char>)
    ensures
        cited_ids(edges).contains(id) <==> exists|i: int|
            0 <= i < edges.len() && listed((#[trigger] edges[i]).source_item_ids).contains(id),
    decreases edges.len(),
{
    if edges.len() > 0 {
        let most = edges.drop_last();
        let last = edges.last();
        law_every_source_is_cited(most, id);
        let (a, b) = (cited_ids(most), listed(last.source_item_ids));
        let all = a + b;
        assert(edges[edges.len() - 1] == last);
        if all.contains(id) {
            let k = choose|k: int| 0 <= k < all.len() && all[k] == id;
            if k < a.len() {
                assert(a[k] == id);
                let i = choose|i: int|
                    0 <= i < most.len() && listed((#[trigger] most[i]).source_item_ids).contains(id);
                assert(edges[i] == most[i]);
            } else {
                assert(b[k - a.len()] == id);
            }
        }
        if exists|i: int|
            0 <= i < edges.len() && listed((#[trigger] edges[i]).source_item_ids).contains(id) {
            let i = choose|i: int|
                0 <= i < edges.len() && listed((#[trigger] edges[i]).source_item_ids).contains(id);
            if i < most.len() {
                assert(most[i] == edges[i]);
                let k = choose|k: int| 0 <= k < a.len() && a[k] == id;
                assert(all[k] == id);
            } else {
                let k = choose|k: int| 0 <= k < b.len() && b[k] == id;
                assert(all[a.len() + k] == id);
            }
        }
    }
}

} // verus!
