//! Asking: which entities a question or a name stands for.

use vstd::prelude::*;

use crate::context::{all_names, fit, fits, live, lowered, reaching, seeds_by};
use crate::double::Double;
use crate::laws::matching::law_most_similar_name_counts;
use crate::matcher::jaro_winkler_bits;
use crate::models::{listed, EntityModel};
use crate::order::{lemma_ranking, ranking};
use crate::text::{ascii_lower, lowercase};
use crate::why::{meant, surest_named};
use crate::world::WorldModel;

verus! {

/// How similar two texts are.
pub open spec fn similarity(a: Seq<char>, b: Seq<char>) -> int {
    (Double { bits: jaro_winkler_bits(a, b) }).rank()
}

/// The entity has the name, as its canonical one or as an alias.
pub open spec fn has_name(e: EntityModel, name: Seq<char>) -> bool {
    name == e.canonical_name || listed(e.aliases).contains(name)
}

/// One of the names of the entity is the text, whatever the case.
pub open spec fn is_called(e: EntityModel, text: Seq<char>) -> bool {
    lowercase(e.canonical_name) == lowercase(text) || exists|j: int|
        0 <= j < listed(e.aliases).len() && lowercase(#[trigger] listed(e.aliases)[j])
            == lowercase(text)
}

/// An entity fits a question as well as the best of its names does, canonical or alias, and no
/// better; one of whose names is the question itself fits as well as a text fits itself.
pub proof fn law_fit_is_by_the_best_name(e: EntityModel, query: Seq<char>, name: Seq<char>)
    ensures
        has_name(e, name) ==> fit(e, query).rank() >= similarity(
            lowercase(query),
            lowercase(name),
        ),
        fit(e, query).rank() > 0 ==> exists|n: Seq<char>| #[trigger]
            has_name(e, n) && fit(e, query).rank() == similarity(lowercase(query), lowercase(n)),
        is_called(e, query) ==> fit(e, query).rank() >= similarity(
            lowercase(query),
            lowercase(query),
        ),
{
    let q = lowercase(query);
    let names = all_names(e);
    let low = lowered(names);
    law_most_similar_name_counts(q, low);
    assert(names[0] == e.canonical_name);
    assert(low[0] == lowercase(e.canonical_name));
    if has_name(e, name) && name != e.canonical_name {
        let j = choose|j: int| 0 <= j < listed(e.aliases).len() && listed(e.aliases)[j] == name;
        assert(names[j + 1] == name);
        assert(low[j + 1] == lowercase(name));
    }
    if is_called(e, query) && lowercase(e.canonical_name) != q {
        let j = choose|j: int|
            0 <= j < listed(e.aliases).len() && lowercase(#[trigger] listed(e.aliases)[j]) == q;
        assert(names[j + 1] == listed(e.aliases)[j]);
        assert(low[j + 1] == q);
    }
    if fit(e, query).rank() > 0 {
        let k = choose|k: int|
            0 <= k < low.len() && fit(e, query).rank() == (Double {
                bits: jaro_winkler_bits(q, #[trigger] low[k]),
            }).rank();
        assert(low[k] == lowercase(names[k]));
        if k > 0 {
            assert(names[k] == listed(e.aliases)[k - 1]);
        }
        assert(has_name(e, names[k]));
    }
}

/// The live entities are those that are there and live.
pub proof fn lemma_live(es: Seq<EntityModel>, e: EntityModel)
    ensures
        live(es).contains(e) <==> es.contains(e) && e.is_live,
    decreases es.len(),
{
    if es.len() > 0 {
        let most = es.drop_last();
        lemma_live(most, e);
        assert(es =~= most.push(es.last()));
        crate::laws::lists::lemma_push_has(most, es.last(), e);
        crate::laws::lists::lemma_push_has(live(most), es.last(), e);
    }
}

proof fn lemma_reaching(scores: Seq<Double>)
    ensures
        forall|k: int|
            0 <= k < reaching(scores).len() ==> 0 <= #[trigger] reaching(scores)[k] < scores.len()
                && scores[reaching(scores)[k]].rank() >= 0x3fe199999999999a,
        forall|p: int|
            0 <= p < scores.len() && (#[trigger] scores[p]).rank() >= 0x3fe199999999999a
                ==> reaching(scores).contains(p),
    decreases scores.len(),
{
    if scores.len() > 0 {
        let most = scores.drop_last();
        let n = scores.len() - 1;
        lemma_reaching(most);
        let before = reaching(most);
        let all = reaching(scores);
        assert forall|k: int| 0 <= k < all.len() implies 0 <= #[trigger] all[k] < scores.len()
            && scores[all[k]].rank() >= 0x3fe199999999999a by {
            if k < before.len() {
                assert(all[k] == before[k]);
                assert(most[before[k]] == scores[before[k]]);
            }
        }
        assert forall|p: int|
            0 <= p < scores.len() && (#[trigger] scores[p]).rank()
                >= 0x3fe199999999999a implies all.contains(p) by {
            if p < n {
                assert(most[p] == scores[p]);
                let k = choose|k: int| 0 <= k < before.len() && before[k] == p;
                assert(all[k] == p);
            } else {
                assert(all[before.len() as int] == n);
            }
        }
    }
}

/// What a question is taken to be about: at most five live entities that fit it to 0.55 or
/// better, the best first. A live entity that is not among them fits worse than that, or there are
/// five, and none of them fits worse than it does.
pub proof fn law_best_fits_are_listed(es: Seq<EntityModel>, query: Seq<char>)
    ensures
        ({
            let r = seeds_by(live(es), fits(live(es), query));
            &&& r.len() <= 5
            &&& forall|i: int|
                0 <= i < r.len() ==> es.contains(#[trigger] r[i]) && r[i].is_live && fit(
                    r[i],
                    query,
                ).rank() >= 0x3fe199999999999a
            &&& forall|i: int, j: int|
                0 <= i < j < r.len() ==> fit(#[trigger] r[i], query).rank() >= fit(
                    #[trigger] r[j],
                    query,
                ).rank()
            &&& forall|e: EntityModel|
                #[trigger] es.contains(e) && e.is_live && !r.contains(e) ==> fit(e, query).rank()
                    < 0x3fe199999999999a || (r.len() == 5 && forall|i: int|
                    0 <= i < 5 ==> fit(#[trigger] r[i], query).rank() >= fit(e, query).rank())
        }),
{
    let all = live(es);
    let scores = fits(all, query);
    let at = reaching(scores);
    let keys = Seq::new(at.len(), |i: int| scores[at[i]].rank());
    let order = ranking(keys);
    let r = seeds_by(all, scores);
    lemma_reaching(scores);
    lemma_ranking(keys);
    assert forall|i: int| 0 <= i < r.len() implies es.contains(#[trigger] r[i]) && r[i].is_live
        && fit(r[i], query).rank() >= 0x3fe199999999999a && fit(r[i], query).rank()
        == keys[order[i]] by {
        let p = at[order[i]];
        assert(r[i] == all[p]);
        assert(all.contains(all[p]));
        lemma_live(es, all[p]);
        assert(scores[p] == fit(all[p], query));
    }
    assert forall|e: EntityModel| #[trigger] es.contains(e) && e.is_live && !r.contains(e) implies (
    fit(e, query).rank() < 0x3fe199999999999a || (r.len() == 5 && forall|i: int|
        0 <= i < 5 ==> fit(#[trigger] r[i], query).rank() >= fit(e, query).rank())) by {
        if fit(e, query).rank() >= 0x3fe199999999999a {
            lemma_live(es, e);
            let p = choose|p: int| 0 <= p < all.len() && all[p] == e;
            assert(scores[p] == fit(e, query));
            assert(at.contains(p));
            let k = choose|k: int| 0 <= k < at.len() && at[k] == p;
            assert(order.contains(k));
            let n = choose|n: int| 0 <= n < order.len() && order[n] == k;
            if n < r.len() {
                assert(r[n] == e);
            }
            assert(n >= 5);
            assert forall|i: int| 0 <= i < 5 implies fit(#[trigger] r[i], query).rank() >= fit(
                e,
                query,
            ).rank() by {
                assert(crate::order::ranks_before(keys, order[i], order[n]));
            }
        }
    }
}

/// The entity has the name, whatever the case of its ASCII letters.
pub open spec fn is_named(e: EntityModel, name: Seq<char>) -> bool {
    ascii_lower(e.canonical_name) == ascii_lower(name)
}

proof fn lemma_surest(es: Seq<EntityModel>, name: Seq<char>)
    ensures
        match surest_named(es, name) {
            Some(e) => {
                &&& es.contains(e)
                &&& is_named(e, name)
                &&& forall|i: int|
                    0 <= i < es.len() && is_named(#[trigger] es[i], name)
                        ==> es[i].confidence.rank() <= e.confidence.rank()
                &&& exists|k: int|
                    0 <= k < es.len() && #[trigger] es[k] == e && forall|i: int|
                        0 <= i < k && is_named(#[trigger] es[i], name) ==> es[i].confidence.rank()
                            < e.confidence.rank()
            },
            None => forall|i: int| 0 <= i < es.len() ==> !is_named(#[trigger] es[i], name),
        },
    decreases es.len(),
{
    if es.len() > 0 {
        let most = es.drop_last();
        lemma_surest(most, name);
        let n = es.len() - 1;
        assert forall|i: int| 0 <= i < n implies #[trigger] es[i] == most[i] by {}
        match surest_named(most, name) {
            Some(b) => {
                let k = choose|k: int|
                    0 <= k < most.len() && #[trigger] most[k] == b && forall|i: int|
                        0 <= i < k && is_named(#[trigger] most[i], name)
                            ==> most[i].confidence.rank() < b.confidence.rank();
                assert(es[k] == b);
                assert forall|i: int|
                    0 <= i < k && is_named(#[trigger] es[i], name) implies es[i].confidence.rank()
                    < b.confidence.rank() by {
                    assert(most[i] == es[i]);
                }
                assert forall|i: int|
                    0 <= i < n && is_named(#[trigger] es[i], name) implies es[i].confidence.rank()
                    <= b.confidence.rank() by {
                    assert(most[i] == es[i]);
                }
            },
            None => {
                assert forall|i: int| 0 <= i < n implies !is_named(#[trigger] es[i], name) by {
                    assert(most[i] == es[i]);
                }
            },
        }
        assert(es[n] == es.last());
    }
}

/// Which entity a text stands for. One that has it as its id comes first; then one that has it as
/// its name up to ASCII case, of which none is surer and none earlier is as sure; then one that is
/// found by its keys. Nothing is found only where none of these is there.
pub proof fn law_surest_of_the_name_is_meant(w: WorldModel, query: Seq<char>)
    ensures
        ({
            let es = w.entities;
            let by_id = exists|i: int| 0 <= i < es.len() && (#[trigger] es[i]).id == query;
            let by_name = exists|i: int| 0 <= i < es.len() && is_named(#[trigger] es[i], query);
            let found = meant(w, query);
            &&& by_id ==> found is Some && found->0.id == query && es.contains(found->0)
            &&& !by_id && by_name ==> {
                &&& found is Some
                &&& es.contains(found->0)
                &&& is_named(found->0, query)
                &&& forall|i: int|
                    0 <= i < es.len() && is_named(#[trigger] es[i], query)
                        ==> es[i].confidence.rank() <= found->0.confidence.rank()
                &&& exists|k: int|
                    0 <= k < es.len() && #[trigger] es[k] == found->0 && forall|i: int|
                        0 <= i < k && is_named(#[trigger] es[i], query) ==> es[i].confidence.rank()
                            < found->0.confidence.rank()
            }
            &&& !by_id && !by_name ==> match found {
                Some(e) => crate::block::candidates_of(w, query).len() > 0 && e
                    == crate::block::candidates_of(w, query)[0],
                None => crate::block::candidates_of(w, query).len() == 0,
            }
        }),
{
    let es = w.entities;
    crate::laws::lists::lemma_entity_of(es, query);
    lemma_surest(es, query);
}

} // verus!
