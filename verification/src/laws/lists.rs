//! Facts about lists that the laws rest on.

use vstd::prelude::*;

use crate::models::EntityModel;
use crate::order::{ascending, law_ascending_is_a_stable_sort, lemma_ranking, opt_before, ranking};
use crate::table::{arranged, lemma_places, places};
use crate::world::{entity_at, entity_of};

verus! {

/// What is in a list with one more entry.
pub proof fn lemma_push_has<T>(s: Seq<T>, x: T, y: T)
    ensures
        s.push(x).contains(y) <==> s.contains(y) || x == y,
{
    let t = s.push(x);
    if s.contains(y) {
        let k = choose|k: int| 0 <= k < s.len() && s[k] == y;
        assert(t[k] == y);
    }
    if x == y {
        assert(t[s.len() as int] == y);
    }
    if t.contains(y) {
        let k = choose|k: int| 0 <= k < t.len() && t[k] == y;
        if k < s.len() {
            assert(s[k] == y);
        }
    }
}

/// An entity is found by its id exactly where there is one, and it is the first.
pub proof fn lemma_entity_of(es: Seq<EntityModel>, id: Seq<char>)
    ensures
        entity_of(es, id) is Some <==> exists|i: int|
            0 <= i < es.len() && (#[trigger] es[i]).id == id,
        entity_of(es, id) matches Some(e) ==> e.id == id && es.contains(e) && exists|k: int|
            0 <= k < es.len() && #[trigger] es[k] == e && forall|i: int|
                0 <= i < k ==> (#[trigger] es[i]).id != id,
{
    lemma_entity_at(es, id);
    let k = entity_at(es, id);
    if k < es.len() {
        assert(es[k].id == id);
        assert(es.contains(es[k]));
    }
}

proof fn lemma_entity_at(es: Seq<EntityModel>, id: Seq<char>)
    ensures
        0 <= entity_at(es, id) <= es.len(),
        entity_at(es, id) < es.len() ==> es[entity_at(es, id)].id == id,
        forall|i: int| 0 <= i < entity_at(es, id) ==> (#[trigger] es[i]).id != id,
    decreases es.len(),
{
    if es.len() > 0 {
        let most = es.drop_last();
        lemma_entity_at(most, id);
        assert forall|i: int| 0 <= i < entity_at(es, id) implies (#[trigger] es[i]).id != id by {
            if i < most.len() {
                assert(most[i] == es[i]);
            }
        }
    }
}

/// The positions that fit, those with the highest key first: each is there once, and no other is.
pub open spec fn lists_highest_first(
    r: Seq<int>,
    n: int,
    fits: spec_fn(int) -> bool,
    key: spec_fn(int) -> int,
) -> bool {
    &&& forall|i: int| 0 <= i < r.len() ==> 0 <= #[trigger] r[i] < n && fits(r[i])
    &&& forall|i: int, j: int|
        0 <= i < j < r.len() ==> key(#[trigger] r[i]) >= key(#[trigger] r[j])
    &&& forall|p: int| 0 <= p < n && #[trigger] fits(p) ==> r.contains(p)
    &&& r.no_duplicates()
}

/// Ranked positions stand highest first.
pub proof fn lemma_ranked(n: int, fits: spec_fn(int) -> bool, key: spec_fn(int) -> int)
    ensures
        ({
            let at = places(n, fits);
            lists_highest_first(
                arranged(at, ranking(Seq::new(at.len(), |k: int| key(at[k])))),
                n,
                fits,
                key,
            )
        }),
{
    let at = places(n, fits);
    let keys = Seq::new(at.len(), |k: int| key(at[k]));
    let order = ranking(keys);
    let r = arranged(at, order);
    lemma_places(n, fits);
    lemma_ranking(keys);
    assert forall|i: int, j: int| 0 <= i < j < r.len() implies key(#[trigger] r[i]) >= key(
        #[trigger] r[j],
    ) by {
        assert(crate::order::ranks_before(keys, order[i], order[j]));
    }
    assert forall|p: int| 0 <= p < n && #[trigger] fits(p) implies r.contains(p) by {
        let k = choose|k: int| 0 <= k < at.len() && at[k] == p;
        assert(order.contains(k));
        let m = choose|m: int| 0 <= m < order.len() && order[m] == k;
        assert(r[m] == p);
    }
    assert forall|i: int, j: int| 0 <= i < j < r.len() implies r[i] != r[j] by {
        assert(crate::order::ranks_before(keys, order[i], order[j]));
        assert(order[i] != order[j]);
        if order[i] < order[j] {
            assert(at[order[i]] < at[order[j]]);
        } else {
            assert(at[order[j]] < at[order[i]]);
        }
    }
}

/// The positions that fit, in ascending order of their keys.
pub open spec fn lists_earliest_first(
    r: Seq<int>,
    n: int,
    fits: spec_fn(int) -> bool,
    key: spec_fn(int) -> Option<Seq<char>>,
) -> bool {
    &&& forall|i: int| 0 <= i < r.len() ==> 0 <= #[trigger] r[i] < n && fits(r[i])
    &&& forall|i: int, j: int|
        0 <= i < j < r.len() ==> !opt_before(key(#[trigger] r[j]), key(#[trigger] r[i]))
    &&& forall|p: int| 0 <= p < n && #[trigger] fits(p) ==> r.contains(p)
    &&& r.no_duplicates()
}

/// Positions in ascending order stand earliest first.
pub proof fn lemma_ascended(
    n: int,
    fits: spec_fn(int) -> bool,
    key: spec_fn(int) -> Option<Seq<char>>,
)
    ensures
        ({
            let at = places(n, fits);
            lists_earliest_first(
                arranged(at, ascending(Seq::new(at.len(), |k: int| key(at[k])))),
                n,
                fits,
                key,
            )
        }),
{
    let at = places(n, fits);
    let keys = Seq::new(at.len(), |k: int| key(at[k]));
    let order = ascending(keys);
    let r = arranged(at, order);
    lemma_places(n, fits);
    law_ascending_is_a_stable_sort(keys);
    assert forall|i: int, j: int| 0 <= i < j < r.len() implies !opt_before(
        key(#[trigger] r[j]),
        key(#[trigger] r[i]),
    ) by {
        assert(!opt_before(keys[order[j]], keys[order[i]]));
    }
    assert forall|p: int| 0 <= p < n && #[trigger] fits(p) implies r.contains(p) by {
        let k = choose|k: int| 0 <= k < at.len() && at[k] == p;
        assert(order.contains(k));
        let m = choose|m: int| 0 <= m < order.len() && order[m] == k;
        assert(r[m] == p);
    }
    assert forall|i: int, j: int| 0 <= i < j < r.len() implies r[i] != r[j] by {
        let (a, b) = (order[i], order[j]);
        assert(a != b) by {
            if a == b {
                assert(keys[order[i]] == keys[order[j]]);
            }
        }
        if a < b {
            assert(at[a] < at[b]);
        } else {
            assert(at[b] < at[a]);
        }
    }
}

/// How texts are ordered: as far as they agree they decide nothing; the first character in which
/// they differ decides, and where one ends first it comes first.
pub proof fn law_text_order(p: Seq<char>, a: char, x: Seq<char>, b: char, y: Seq<char>)
    ensures
        a != b ==> (crate::text::before(p + seq![a] + x, p + seq![b] + y) <==> a < b),
        crate::text::before(p, p + seq![a] + x),
        !crate::text::before(p + seq![a] + x, p),
    decreases p.len(),
{
    let (s, t) = (p + seq![a] + x, p + seq![b] + y);
    if p.len() > 0 {
        let q = p.drop_first();
        law_text_order(q, a, x, b, y);
        assert(s.drop_first() =~= q + seq![a] + x);
        assert(t.drop_first() =~= q + seq![b] + y);
        assert(s[0] == p[0] && t[0] == p[0]);
    } else {
        assert(s[0] == a && t[0] == b);
    }
}

} // verus!
