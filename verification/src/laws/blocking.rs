//! Blocking: which stored entities a mention meets.

use vstd::prelude::*;

use crate::block::{
    blocked_ids, candidates_of, entity_keys, hit_count, hit_ids, indexed, key_rows, keys_of_names,
    lemma_counted_row, lemma_hit_ids_distinct, name_keys, reindexed, shares_key, token_keys,
    with_id, with_ids, without_entity,
};
use crate::laws::lists::lemma_push_has;
use crate::matcher::{byte_len, content, normalized, phonetic_code};
use crate::models::{listed, EntityModel};
use crate::order::{lemma_ranking, lemma_sorted_pairs, ranking};
use crate::world::{KeyModel, WorldModel};

verus! {

// ---------------------------------------------------------------------------------------------
// Keys

/// The key is that of a token: the token itself, if it is three bytes long or longer, or how it
/// sounds.
pub open spec fn is_token_key(t: Seq<char>, k: (Seq<char>, Seq<char>)) -> bool {
    &&& byte_len(t) >= 3
    &&& k == ("token"@, t) || (k == ("phon"@, phonetic_code(t)) && phonetic_code(t).len() > 0)
}

proof fn lemma_token_keys(ts: Seq<Seq<char>>, k: (Seq<char>, Seq<char>))
    ensures
        token_keys(ts).contains(k) <==> exists|i: int|
            0 <= i < ts.len() && is_token_key(#[trigger] ts[i], k),
    decreases ts.len(),
{
    if ts.len() > 0 {
        let most = ts.drop_last();
        let t = ts.last();
        let rest = token_keys(most);
        lemma_token_keys(most, k);
        lemma_push_has(rest, ("token"@, t), k);
        lemma_push_has(rest.push(("token"@, t)), ("phon"@, phonetic_code(t)), k);
        assert(ts[ts.len() - 1] == t);
        if exists|i: int| 0 <= i < most.len() && is_token_key(#[trigger] most[i], k) {
            let i = choose|i: int| 0 <= i < most.len() && is_token_key(#[trigger] most[i], k);
            assert(ts[i] == most[i]);
        }
        if exists|i: int| 0 <= i < ts.len() && is_token_key(#[trigger] ts[i], k) {
            let i = choose|i: int| 0 <= i < ts.len() && is_token_key(#[trigger] ts[i], k);
            if i < most.len() {
                assert(most[i] == ts[i]);
            }
        }
    }
}

/// The key is one of a name: the whole of it, normalized, or that of one of its content tokens.
pub open spec fn is_key_of(name: Seq<char>, k: (Seq<char>, Seq<char>)) -> bool {
    let norm = normalized(name);
    &&& norm.len() > 0
    &&& k == ("norm"@, norm) || exists|i: int|
        0 <= i < content(norm).len() && is_token_key(#[trigger] content(norm)[i], k)
}

/// The keys of a name are these and no others.
pub proof fn law_keys_of_a_name(name: Seq<char>, k: (Seq<char>, Seq<char>))
    ensures
        name_keys(name).contains(k) <==> is_key_of(name, k),
{
    let norm = normalized(name);
    if norm.len() > 0 {
        let own = seq![("norm"@, norm)] + token_keys(content(norm));
        lemma_sorted_pairs(own);
        lemma_token_keys(content(norm), k);
        if own.contains(k) {
            let i = choose|i: int| 0 <= i < own.len() && own[i] == k;
            if i > 0 {
                assert(token_keys(content(norm))[i - 1] == k);
            }
        }
        if k == ("norm"@, norm) {
            assert(own[0] == k);
        }
        if token_keys(content(norm)).contains(k) {
            let i = choose|i: int|
                0 <= i < token_keys(content(norm)).len() && token_keys(content(norm))[i] == k;
            assert(own[i + 1] == k);
        }
    } else {
        assert(!name_keys(name).contains(k));
    }
}

proof fn lemma_names_keys(names: Seq<Seq<char>>, k: (Seq<char>, Seq<char>))
    ensures
        keys_of_names(names).contains(k) <==> exists|j: int|
            0 <= j < names.len() && is_key_of(#[trigger] names[j], k),
    decreases names.len(),
{
    if names.len() > 0 {
        let most = names.drop_last();
        let n = names.len() - 1;
        lemma_names_keys(most, k);
        law_keys_of_a_name(names.last(), k);
        let (a, b) = (keys_of_names(most), name_keys(names.last()));
        let all = a + b;
        assert(names[n] == names.last());
        if all.contains(k) {
            let i = choose|i: int| 0 <= i < all.len() && all[i] == k;
            if i < a.len() {
                assert(a[i] == k);
                let j = choose|j: int| 0 <= j < most.len() && is_key_of(#[trigger] most[j], k);
                assert(names[j] == most[j]);
            } else {
                assert(b[i - a.len()] == k);
            }
        }
        if exists|j: int| 0 <= j < names.len() && is_key_of(#[trigger] names[j], k) {
            let j = choose|j: int| 0 <= j < names.len() && is_key_of(#[trigger] names[j], k);
            if j < n {
                assert(most[j] == names[j]);
                let i = choose|i: int| 0 <= i < a.len() && a[i] == k;
                assert(all[i] == k);
            } else {
                let i = choose|i: int| 0 <= i < b.len() && b[i] == k;
                assert(all[a.len() + i] == k);
            }
        }
    }
}

proof fn lemma_without_entity(keys: Seq<KeyModel>, id: Seq<char>, row: KeyModel)
    ensures
        without_entity(keys, id).contains(row) <==> keys.contains(row) && row.entity_id != id,
    decreases keys.len(),
{
    if keys.len() > 0 {
        let rest = keys.drop_first();
        lemma_without_entity(rest, id, row);
        let w = without_entity(rest, id);
        if keys.contains(row) && keys[0] != row {
            let k = choose|k: int| 0 <= k < keys.len() && keys[k] == row;
            assert(rest[k - 1] == row);
        }
        if rest.contains(row) {
            let k = choose|k: int| 0 <= k < rest.len() && rest[k] == row;
            assert(keys[k + 1] == row);
        }
        let all = seq![keys[0]] + w;
        if w.contains(row) {
            let k = choose|k: int| 0 <= k < w.len() && w[k] == row;
            assert(all[k + 1] == row);
        }
        if all.contains(row) && keys[0] != row {
            let k = choose|k: int| 0 <= k < all.len() && all[k] == row;
            assert(w[k - 1] == row);
        }
        assert(all[0] == keys[0]);
    } else {
        assert(!without_entity(keys, id).contains(row));
    }
}

/// The index after an entity was put in: its rows are the keys of its canonical name and of each of
/// its aliases, whatever was there of it before; the rows of the others are as they were.
pub proof fn law_index_holds_every_name(
    keys: Seq<KeyModel>,
    id: Seq<char>,
    canonical: Seq<char>,
    aliases: Seq<Seq<char>>,
    row: KeyModel,
)
    ensures
        ({
            let k = (row.key_type, row.key);
            let after = indexed(keys, id, canonical, aliases);
            &&& row.entity_id != id ==> (after.contains(row) <==> keys.contains(row))
            &&& row.entity_id == id ==> (after.contains(row) <==> is_key_of(canonical, k)
                || exists|j: int| 0 <= j < aliases.len() && is_key_of(#[trigger] aliases[j], k))
        }),
{
    let k = (row.key_type, row.key);
    let own = name_keys(canonical) + keys_of_names(aliases);
    let ks = entity_keys(canonical, aliases);
    let left = without_entity(keys, id);
    let right = key_rows(id, ks);
    let after = left + right;
    lemma_sorted_pairs(own);
    law_keys_of_a_name(canonical, k);
    lemma_names_keys(aliases, k);
    lemma_without_entity(keys, id, row);
    assert(own.contains(k) <==> name_keys(canonical).contains(k) || keys_of_names(
        aliases,
    ).contains(k)) by {
        if own.contains(k) {
            let i = choose|i: int| 0 <= i < own.len() && own[i] == k;
            if i < name_keys(canonical).len() {
                assert(name_keys(canonical)[i] == k);
            } else {
                assert(keys_of_names(aliases)[i - name_keys(canonical).len()] == k);
            }
        }
        if name_keys(canonical).contains(k) {
            let i = choose|i: int|
                0 <= i < name_keys(canonical).len() && name_keys(canonical)[i] == k;
            assert(own[i] == k);
        }
        if keys_of_names(aliases).contains(k) {
            let i = choose|i: int|
                0 <= i < keys_of_names(aliases).len() && keys_of_names(aliases)[i] == k;
            assert(own[name_keys(canonical).len() + i] == k);
        }
    }
    assert(right.contains(row) <==> row.entity_id == id && ks.contains(k)) by {
        if right.contains(row) {
            let i = choose|i: int| 0 <= i < right.len() && right[i] == row;
            assert(ks[i] == k);
        }
        if row.entity_id == id && ks.contains(k) {
            let i = choose|i: int| 0 <= i < ks.len() && ks[i] == k;
            assert(right[i] == row);
        }
    }
    if after.contains(row) {
        let i = choose|i: int| 0 <= i < after.len() && after[i] == row;
        if i < left.len() {
            assert(left[i] == row);
        } else {
            assert(right[i - left.len()] == row);
        }
    }
    if left.contains(row) {
        let i = choose|i: int| 0 <= i < left.len() && left[i] == row;
        assert(after[i] == row);
    }
    if right.contains(row) {
        let i = choose|i: int| 0 <= i < right.len() && right[i] == row;
        assert(after[left.len() + i] == row);
    }
}

/// After all entities were indexed, each is there under the keys of each of its names.
pub proof fn law_reindexing_misses_no_entity(
    keys: Seq<KeyModel>,
    es: Seq<EntityModel>,
    i: int,
    row: KeyModel,
)
    requires
        0 <= i < es.len(),
        forall|j: int| i < j < es.len() ==> (#[trigger] es[j]).id != es[i].id,
        row.entity_id == es[i].id,
        is_key_of(es[i].canonical_name, (row.key_type, row.key)) || exists|j: int|
            0 <= j < listed(es[i].aliases).len() && is_key_of(
                #[trigger] listed(es[i].aliases)[j],
                (row.key_type, row.key),
            ),
    ensures
        reindexed(keys, es).contains(row),
    decreases es.len(),
{
    let most = es.drop_last();
    let e = es.last();
    if i < most.len() {
        assert(most[i] == es[i]);
        assert forall|j: int| i < j < most.len() implies (#[trigger] most[j]).id != most[i].id by {
            assert(most[j] == es[j]);
        }
        law_reindexing_misses_no_entity(keys, most, i, row);
        assert(es[es.len() - 1].id != es[i].id);
    }
    law_index_holds_every_name(
        reindexed(keys, most),
        e.id,
        e.canonical_name,
        listed(e.aliases),
        row,
    );
}

// ---------------------------------------------------------------------------------------------
// Candidates

proof fn lemma_with_id(es: Seq<EntityModel>, id: Seq<char>, e: EntityModel)
    ensures
        with_id(es, id).contains(e) <==> es.contains(e) && e.id == id,
    decreases es.len(),
{
    if es.len() > 0 {
        let most = es.drop_last();
        lemma_with_id(most, id, e);
        assert(es =~= most.push(es.last()));
        lemma_push_has(most, es.last(), e);
        lemma_push_has(with_id(most, id), es.last(), e);
    }
}

proof fn lemma_with_ids(es: Seq<EntityModel>, ids: Seq<Seq<char>>, e: EntityModel)
    ensures
        with_ids(es, ids).contains(e) <==> es.contains(e) && ids.contains(e.id),
    decreases ids.len(),
{
    if ids.len() > 0 {
        let most = ids.drop_last();
        lemma_with_ids(es, most, e);
        lemma_with_id(es, ids.last(), e);
        assert(ids =~= most.push(ids.last()));
        lemma_push_has(most, ids.last(), e.id);
        let (a, b) = (with_ids(es, most), with_id(es, ids.last()));
        let all = a + b;
        if all.contains(e) {
            let k = choose|k: int| 0 <= k < all.len() && all[k] == e;
            if k < a.len() {
                assert(a[k] == e);
            } else {
                assert(b[k - a.len()] == e);
            }
        }
        if a.contains(e) {
            let k = choose|k: int| 0 <= k < a.len() && a[k] == e;
            assert(all[k] == e);
        }
        if b.contains(e) {
            let k = choose|k: int| 0 <= k < b.len() && b[k] == e;
            assert(all[a.len() + k] == e);
        }
    } else {
        assert(!with_ids(es, ids).contains(e));
    }
}

/// A mention meets every entity that shares a key with it, as long as there are no more than fifty
/// of them, and no other entity. Where there are more, it meets fifty, and each of those shares at
/// least as many keys with it as any that it does not meet.
pub proof fn law_shared_keys_are_met(w: WorldModel, mention: Seq<char>, e: EntityModel)
    requires
        w.entities.contains(e),
    ensures
        ({
            let met = candidates_of(w, mention).contains(e);
            let ks = name_keys(mention);
            let shares = exists|k: int|
                0 <= k < w.keys.len() && (#[trigger] w.keys[k]).entity_id == e.id && is_key_of(
                    mention,
                    (w.keys[k].key_type, w.keys[k].key),
                );
            &&& met ==> shares
            &&& hit_ids(w.keys, ks).len() <= 50 ==> (met <==> shares)
            &&& shares && !met ==> blocked_ids(w.keys, mention).len() == 50 && forall|i: int|
                0 <= i < 50 ==> hit_count(w.keys, ks, #[trigger] blocked_ids(w.keys, mention)[i])
                    >= hit_count(w.keys, ks, e.id)
        }),
{
    let ks = name_keys(mention);
    let ids = hit_ids(w.keys, ks);
    let counts = Seq::new(ids.len(), |i: int| hit_count(w.keys, ks, ids[i]));
    let order = ranking(counts);
    let chosen = blocked_ids(w.keys, mention);
    lemma_ranking(counts);
    lemma_hit_ids_distinct(w.keys, ks);
    lemma_counted_row(w.keys, mention, e.id);
    lemma_with_ids(w.entities, chosen, e);
    let shares = exists|k: int|
        0 <= k < w.keys.len() && (#[trigger] w.keys[k]).entity_id == e.id && is_key_of(
            mention,
            (w.keys[k].key_type, w.keys[k].key),
        );
    assert(shares <==> ids.contains(e.id)) by {
        if shares {
            let k = choose|k: int|
                0 <= k < w.keys.len() && (#[trigger] w.keys[k]).entity_id == e.id && is_key_of(
                    mention,
                    (w.keys[k].key_type, w.keys[k].key),
                );
            law_keys_of_a_name(mention, (w.keys[k].key_type, w.keys[k].key));
            assert(shares_key(w.keys, mention, e.id, k));
        }
        if ids.contains(e.id) {
            let k = choose|k: int| shares_key(w.keys, mention, e.id, k);
            law_keys_of_a_name(mention, (w.keys[k].key_type, w.keys[k].key));
            assert(w.keys[k].entity_id == e.id);
        }
    }
    if chosen.contains(e.id) {
        let k = choose|k: int| 0 <= k < chosen.len() && chosen[k] == e.id;
        assert(0 <= order[k] < ids.len());
        assert(ids[order[k]] == e.id);
    }
    if ids.contains(e.id) {
        let p = choose|p: int| 0 <= p < ids.len() && ids[p] == e.id;
        assert(order.contains(p));
        let n = choose|n: int| 0 <= n < order.len() && order[n] == p;
        if n < chosen.len() {
            assert(chosen[n] == e.id);
        } else {
            assert forall|i: int| 0 <= i < 50 implies hit_count(
                w.keys,
                ks,
                #[trigger] chosen[i],
            ) >= hit_count(w.keys, ks, e.id) by {
                assert(crate::order::ranks_before(counts, order[i], order[n]));
            }
        }
    }
}

/// How many keys an entity shares with a name: one for each of its rows that holds one.
pub proof fn law_shared_keys_are_counted(
    keys: Seq<KeyModel>,
    ks: Seq<(Seq<char>, Seq<char>)>,
    row: KeyModel,
    id: Seq<char>,
)
    ensures
        hit_count(seq![], ks, id) == 0,
        row.entity_id == id && ks.contains((row.key_type, row.key)) ==> hit_count(
            keys.push(row),
            ks,
            id,
        ) == hit_count(keys, ks, id) + 1,
        row.entity_id != id || !ks.contains((row.key_type, row.key)) ==> hit_count(
            keys.push(row),
            ks,
            id,
        ) == hit_count(keys, ks, id),
{
    assert(keys.push(row).drop_last() =~= keys);
}

} // verus!
