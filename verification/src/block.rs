//! Blocking: candidate generation for the matcher. Comparing every mention with every entity
//! takes time in proportion to their number and does not survive a few thousand entities.
//! Instead each entity's canonical name and aliases are indexed under a few cheap keys
//! (normalized name, content tokens, phonetic codes), and a mention only meets the entities
//! that share a key.

use vstd::prelude::*;

use crate::matcher::{
    byte_len, content, content_tokens, normalize, normalized, phonetic, phonetic_code,
};
use crate::models::{listed, rows, EntityModel, WmEntity};
use crate::order::{
    ints, pairs, positions, rank_descending, ranking, sort_pairs, sorted_pairs,
};
use crate::text::{str_eq, views};
use crate::world::{unique_ids, EntityKey, KeyModel, World, WorldModel};

verus! {

/// At most this many entities are handed to the matcher.
pub const MAX_CANDIDATES: usize = 50;

/// Shorter tokens are no keys.
pub const MIN_TOKEN_LEN: usize = 3;

/// The keys that the content tokens give: each token that is long enough, and its phonetic code
/// where it has one.
pub open spec fn token_keys(ts: Seq<Seq<char>>) -> Seq<(Seq<char>, Seq<char>)>
    decreases ts.len(),
{
    if ts.len() == 0 {
        seq![]
    } else {
        let rest = token_keys(ts.drop_last());
        let t = ts.last();
        if byte_len(t) < MIN_TOKEN_LEN {
            rest
        } else if phonetic_code(t).len() == 0 {
            rest.push(("token"@, t))
        } else {
            rest.push(("token"@, t)).push(("phon"@, phonetic_code(t)))
        }
    }
}

/// The (key type, key) pairs of a name, sorted, each once: none where nothing is left of the name.
pub open spec fn name_keys(name: Seq<char>) -> Seq<(Seq<char>, Seq<char>)> {
    let norm = normalized(name);
    if norm.len() == 0 {
        seq![]
    } else {
        sorted_pairs(seq![("norm"@, norm)] + token_keys(content(norm)))
    }
}

/// (key type, key) pairs for one name.
pub fn keys_for(name: &str) -> (r: Vec<(&'static str, String)>)
    ensures
        pairs(r@) == name_keys(name@),
{
    let norm = normalize(name);
    if norm.as_str().is_empty() {
        let none: Vec<(&'static str, String)> = Vec::new();
        assert(pairs(none@) =~= seq![]);
        return none;
    }
    let mut keys: Vec<(&'static str, String)> = Vec::new();
    let ts = content_tokens(norm.as_str());
    keys.push(("norm", norm));
    let ghost first = seq![("norm"@, normalized(name@))];
    let ghost tokens = content(normalized(name@));
    assert(tokens.take(0) =~= seq![]);
    assert(pairs(keys@) =~= first + token_keys(tokens.take(0)));
    let mut i: usize = 0;
    while i < ts.len()
        invariant
            i <= ts@.len(),
            views(ts@) == tokens,
            pairs(keys@) == first + token_keys(tokens.take(i as int)),
        decreases ts.len() - i,
    {
        let ghost upto = tokens.take(i + 1);
        let ghost done = pairs(keys@);
        let ghost rest = token_keys(tokens.take(i as int));
        assert(upto.drop_last() =~= tokens.take(i as int));
        assert(upto.last() == ts@[i as int]@);
        if ts[i].as_str().as_bytes().len() >= MIN_TOKEN_LEN {
            let t = ts[i].clone();
            let p = phonetic(t.as_str());
            let ghost tv = t@;
            keys.push(("token", t));
            assert(pairs(keys@) =~= done.push(("token"@, tv)));
            assert(first + rest.push(("token"@, tv)) =~= done.push(("token"@, tv)));
            if !p.as_str().is_empty() {
                let ghost pv = p@;
                keys.push(("phon", p));
                assert(pairs(keys@) =~= done.push(("token"@, tv)).push(("phon"@, pv)));
                assert(first + rest.push(("token"@, tv)).push(("phon"@, pv)) =~= done.push(
                    ("token"@, tv),
                ).push(("phon"@, pv)));
            }
        }
        i += 1;
    }
    assert(tokens.take(i as int) =~= tokens);
    sort_pairs(&keys)
}

/// The keys of the names, one name after the other.
pub open spec fn keys_of_names(names: Seq<Seq<char>>) -> Seq<(Seq<char>, Seq<char>)>
    decreases names.len(),
{
    if names.len() == 0 {
        seq![]
    } else {
        keys_of_names(names.drop_last()) + name_keys(names.last())
    }
}

/// The keys of an entity, sorted, each once.
pub open spec fn entity_keys(canonical: Seq<char>, aliases: Seq<Seq<char>>) -> Seq<
    (Seq<char>, Seq<char>),
> {
    sorted_pairs(name_keys(canonical) + keys_of_names(aliases))
}

/// The key rows without those of one entity.
pub open spec fn without_entity(keys: Seq<KeyModel>, id: Seq<char>) -> Seq<KeyModel>
    decreases keys.len(),
{
    if keys.len() == 0 {
        seq![]
    } else if keys[0].entity_id == id {
        without_entity(keys.drop_first(), id)
    } else {
        seq![keys[0]] + without_entity(keys.drop_first(), id)
    }
}

/// The rows of the given keys for one entity.
pub open spec fn key_rows(id: Seq<char>, ks: Seq<(Seq<char>, Seq<char>)>) -> Seq<KeyModel> {
    Seq::new(ks.len(), |i: int| KeyModel { entity_id: id, key_type: ks[i].0, key: ks[i].1 })
}

/// The key table after an entity was indexed under its canonical name and aliases.
pub open spec fn indexed(
    keys: Seq<KeyModel>,
    id: Seq<char>,
    canonical: Seq<char>,
    aliases: Seq<Seq<char>>,
) -> Seq<KeyModel> {
    without_entity(keys, id) + key_rows(id, entity_keys(canonical, aliases))
}

fn delete_keys(keys: &mut Vec<EntityKey>, id: &str)
    ensures
        rows(final(keys)@) == without_entity(rows(old(keys)@), id@),
{
    let ghost all = rows(keys@);
    let mut i: usize = 0;
    assert(all.take(0) + without_entity(all.skip(0), id@) =~= without_entity(all, id@)) by {
        assert(all.skip(0) =~= all);
    }
    while i < keys.len()
        invariant
            i <= keys@.len(),
            all == rows(old(keys)@),
            without_entity(all, id@) == rows(keys@).take(i as int) + without_entity(
                rows(keys@).skip(i as int),
                id@,
            ),
        decreases keys.len() - i,
    {
        let ghost cur = rows(keys@);
        let ghost head = cur.take(i as int);
        let ghost rest = cur.skip(i as int);
        if str_eq(keys[i].entity_id.as_str(), id) {
            keys.remove(i);
            proof {
                assert(rows(keys@).take(i as int) =~= head);
                assert(rows(keys@).skip(i as int) =~= rest.drop_first());
            }
        } else {
            proof {
                assert(head.push(rest[0]) =~= cur.take(i + 1));
                assert(rest.drop_first() =~= cur.skip(i + 1));
                assert(head + (seq![rest[0]] + without_entity(rest.drop_first(), id@))
                    =~= head.push(rest[0]) + without_entity(rest.drop_first(), id@));
            }
            i += 1;
        }
    }
    assert(rows(keys@).skip(i as int) =~= seq![]);
    assert(rows(keys@).take(i as int) + Seq::<KeyModel>::empty() =~= rows(keys@));
}

/// Rebuilds the key set of one entity from its canonical name and aliases.
pub fn index_entity(world: &mut World, entity_id: &str, canonical: &str, aliases: &[String])
    ensures
        final(world)@ == (WorldModel {
            keys: indexed(old(world)@.keys, entity_id@, canonical@, views(aliases@)),
            ..old(world)@
        }),
{
    delete_keys(&mut world.keys, entity_id);
    let mut all = keys_for(canonical);
    let ghost names = views(aliases@);
    let ghost own = name_keys(canonical@);
    let mut i: usize = 0;
    assert(names.take(0) =~= seq![]);
    assert(pairs(all@) =~= own + keys_of_names(names.take(0)));
    while i < aliases.len()
        invariant
            i <= aliases@.len(),
            names == views(aliases@),
            pairs(all@) == own + keys_of_names(names.take(i as int)),
        decreases aliases.len() - i,
    {
        assert(names.take(i + 1).drop_last() =~= names.take(i as int));
        let ghost done = pairs(all@);
        let mut more = keys_for(aliases[i].as_str());
        let ghost added = pairs(more@);
        all.append(&mut more);
        assert(pairs(all@) =~= done + added);
        assert(done + added =~= own + (keys_of_names(names.take(i as int)) + added));
        i += 1;
    }
    assert(names.take(i as int) =~= names);
    let sorted = sort_pairs(&all);
    let ghost base = rows(world.keys@);
    let ghost new = key_rows(entity_id@, pairs(sorted@));
    let ghost w = world@;
    let mut j: usize = 0;
    assert(base + new.take(0) =~= base);
    while j < sorted.len()
        invariant
            j <= sorted@.len(),
            new == key_rows(entity_id@, pairs(sorted@)),
            rows(world.keys@) == base + new.take(j as int),
            world@ == (WorldModel { keys: rows(world.keys@), ..w }),
        decreases sorted.len() - j,
    {
        let ghost done = rows(world.keys@);
        let row = EntityKey {
            entity_id: entity_id.to_owned(),
            key_type: sorted[j].0.to_owned(),
            key: sorted[j].1.clone(),
        };
        let ghost rv = row@;
        assert(rv == new[j as int]);
        world.keys.push(row);
        assert(rows(world.keys@) =~= done.push(rv));
        assert(base + new.take(j + 1) =~= done.push(rv));
        j += 1;
    }
    assert(new.take(j as int) =~= new);
}

/// A key row is one of the given keys.
pub open spec fn hits(k: KeyModel, ks: Seq<(Seq<char>, Seq<char>)>) -> bool {
    ks.contains((k.key_type, k.key))
}

/// The entities with a row among the given keys, in order of their first such row.
pub open spec fn hit_ids(keys: Seq<KeyModel>, ks: Seq<(Seq<char>, Seq<char>)>) -> Seq<Seq<char>>
    decreases keys.len(),
{
    if keys.len() == 0 {
        seq![]
    } else {
        let r = hit_ids(keys.drop_last(), ks);
        if hits(keys.last(), ks) && !r.contains(keys.last().entity_id) {
            r.push(keys.last().entity_id)
        } else {
            r
        }
    }
}

/// How many of the given keys an entity has.
pub open spec fn hit_count(
    keys: Seq<KeyModel>,
    ks: Seq<(Seq<char>, Seq<char>)>,
    id: Seq<char>,
) -> int
    decreases keys.len(),
{
    if keys.len() == 0 {
        0
    } else {
        let n = hit_count(keys.drop_last(), ks, id);
        if hits(keys.last(), ks) && keys.last().entity_id == id {
            n + 1
        } else {
            n
        }
    }
}

/// The ids of the entities that share most keys with the mention, most shared keys first.
pub open spec fn blocked_ids(keys: Seq<KeyModel>, mention: Seq<char>) -> Seq<Seq<char>> {
    let ks = name_keys(mention);
    let ids = hit_ids(keys, ks);
    let order = ranking(Seq::new(ids.len(), |i: int| hit_count(keys, ks, ids[i])));
    let n = if order.len() > MAX_CANDIDATES {
        MAX_CANDIDATES as nat
    } else {
        order.len()
    };
    Seq::new(n, |i: int| ids[order[i]])
}

/// The entities with the given id, in order.
pub open spec fn with_id(es: Seq<EntityModel>, id: Seq<char>) -> Seq<EntityModel>
    decreases es.len(),
{
    if es.len() == 0 {
        seq![]
    } else if es.last().id == id {
        with_id(es.drop_last(), id).push(es.last())
    } else {
        with_id(es.drop_last(), id)
    }
}

/// The entities with the given ids, in the order of the ids.
pub open spec fn with_ids(es: Seq<EntityModel>, ids: Seq<Seq<char>>) -> Seq<EntityModel>
    decreases ids.len(),
{
    if ids.len() == 0 {
        seq![]
    } else {
        with_ids(es, ids.drop_last()) + with_id(es, ids.last())
    }
}

/// The entities that the mention meets.
pub open spec fn candidates_of(w: WorldModel, mention: Seq<char>) -> Seq<EntityModel> {
    with_ids(w.entities, blocked_ids(w.keys, mention))
}

fn is_hit(row: &EntityKey, ks: &Vec<(&'static str, String)>) -> (r: bool)
    ensures
        r == hits(row@, pairs(ks@)),
{
    let mut i: usize = 0;
    while i < ks.len()
        invariant
            i <= ks@.len(),
            forall|j: int| 0 <= j < i ==> pairs(ks@)[j] != (row@.key_type, row@.key),
        decreases ks.len() - i,
    {
        if str_eq(ks[i].0, row.key_type.as_str()) && str_eq(ks[i].1.as_str(), row.key.as_str()) {
            assert(pairs(ks@)[i as int] == (row@.key_type, row@.key));
            return true;
        }
        i += 1;
    }
    false
}

fn position_of(ids: &Vec<String>, id: &str) -> (r: Option<usize>)
    ensures
        match r {
            Some(p) => p < ids@.len() && ids@[p as int]@ == id@,
            None => !views(ids@).contains(id@),
        },
{
    let mut i: usize = 0;
    while i < ids.len()
        invariant
            i <= ids@.len(),
            forall|j: int| 0 <= j < i ==> views(ids@)[j] != id@,
        decreases ids.len() - i,
    {
        if str_eq(ids[i].as_str(), id) {
            return Some(i);
        }
        i += 1;
    }
    None
}

pub proof fn lemma_hit_ids_distinct(keys: Seq<KeyModel>, ks: Seq<(Seq<char>, Seq<char>)>)
    ensures
        hit_ids(keys, ks).no_duplicates(),
        forall|id: Seq<char>| hit_count(keys, ks, id) > 0 <==> #[trigger] hit_ids(keys, ks).contains(
            id,
        ),
        forall|id: Seq<char>| 0 <= #[trigger] hit_count(keys, ks, id) <= keys.len(),
    decreases keys.len(),
{
    if keys.len() > 0 {
        let most = keys.drop_last();
        lemma_hit_ids_distinct(most, ks);
        let r = hit_ids(most, ks);
        let x = keys.last().entity_id;
        if hits(keys.last(), ks) && !r.contains(x) {
            crate::matcher::lemma_push_no_duplicates(r, x);
        }
        assert forall|id: Seq<char>| hit_count(keys, ks, id) > 0 <==> #[trigger] hit_ids(
            keys,
            ks,
        ).contains(id) by {
            assert(hit_count(most, ks, id) > 0 <==> r.contains(id));
            crate::matcher::lemma_push_contains(r, x, id);
        }
        assert forall|id: Seq<char>| 0 <= #[trigger] hit_count(keys, ks, id) <= keys.len() by {
            assert(0 <= hit_count(most, ks, id) <= most.len());
        }
    } else {
        assert forall|id: Seq<char>| hit_count(keys, ks, id) > 0 <==> #[trigger] hit_ids(
            keys,
            ks,
        ).contains(id) by {}
    }
}

/// The ids that share a key, with how many.
fn count_hits(keys: &Vec<EntityKey>, ks: &Vec<(&'static str, String)>) -> (r: (
    Vec<String>,
    Vec<i128>,
))
    ensures
        views(r.0@) == hit_ids(rows(keys@), pairs(ks@)),
        ints(r.1@) == Seq::new(
            r.0@.len(),
            |i: int| hit_count(rows(keys@), pairs(ks@), views(r.0@)[i]),
        ),
{
    let ghost all = rows(keys@);
    let ghost kv = pairs(ks@);
    let mut ids: Vec<String> = Vec::new();
    let mut counts: Vec<i128> = Vec::new();
    let mut i: usize = 0;
    assert(all.take(0) =~= seq![]);
    assert(views(ids@) =~= seq![]);
    while i < keys.len()
        invariant
            i <= keys@.len(),
            all == rows(keys@),
            kv == pairs(ks@),
            views(ids@) == hit_ids(all.take(i as int), kv),
            counts@.len() == ids@.len(),
            forall|j: int|
                0 <= j < ids@.len() ==> #[trigger] counts@[j] == hit_count(
                    all.take(i as int),
                    kv,
                    ids@[j]@,
                ),
            forall|j: int| 0 <= j < ids@.len() ==> 0 <= #[trigger] counts@[j] <= i,
        decreases keys.len() - i,
    {
        let ghost upto = all.take(i + 1);
        let ghost prev = all.take(i as int);
        let ghost ids0 = views(ids@);
        assert(upto.drop_last() =~= prev);
        assert(upto.last() == keys@[i as int]@);
        proof {
            lemma_hit_ids_distinct(prev, kv);
        }
        if is_hit(&keys[i], ks) {
            match position_of(&ids, keys[i].entity_id.as_str()) {
                Some(p) => {
                    let n = counts[p];
                    counts.set(p, n + 1);
                    proof {
                        assert(ids0[p as int] == upto.last().entity_id);
                        assert forall|j: int| 0 <= j < ids@.len() implies #[trigger] counts@[j]
                            == hit_count(upto, kv, ids@[j]@) by {
                            if j != p {
                                assert(ids0[j] != ids0[p as int]);
                            }
                        }
                    }
                },
                None => {
                    ids.push(keys[i].entity_id.clone());
                    counts.push(1);
                    proof {
                        assert(views(ids@) =~= ids0.push(upto.last().entity_id));
                        assert forall|j: int| 0 <= j < ids@.len() implies #[trigger] counts@[j]
                            == hit_count(upto, kv, ids@[j]@) by {
                            if j < ids0.len() {
                                assert(ids0[j] != upto.last().entity_id);
                                assert(ids@[j]@ == ids0[j]);
                            } else {
                                assert(ids@[j]@ == upto.last().entity_id);
                                assert(hit_count(prev, kv, upto.last().entity_id) == 0);
                            }
                        }
                    }
                },
            }
        } else {
            assert forall|j: int| 0 <= j < ids@.len() implies #[trigger] counts@[j] == hit_count(
                upto,
                kv,
                ids@[j]@,
            ) by {}
        }
        i += 1;
    }
    assert(all.take(i as int) =~= all);
    assert(ints(counts@) =~= Seq::new(
        ids@.len(),
        |i: int| hit_count(rows(keys@), pairs(ks@), views(ids@)[i]),
    ));
    (ids, counts)
}

/// Entities sharing at least one key with the mention, most shared keys first.
pub fn candidates_for(world: &World, mention: &str) -> (r: Vec<WmEntity>)
    ensures
        rows(r@) == candidates_of(world@, mention@),
{
    let keys = keys_for(mention);
    let (ids, counts) = count_hits(&world.keys, &keys);
    let order = rank_descending(&counts);
    let ghost chosen = blocked_ids(world@.keys, mention@);
    let ghost es = world@.entities;
    proof {
        let ks = name_keys(mention@);
        let hs = hit_ids(world@.keys, ks);
        assert(ints(counts@) =~= Seq::new(
            hs.len(),
            |i: int| hit_count(world@.keys, ks, hs[i]),
        ));
        assert(positions(order@).len() == order@.len());
    }
    let n: usize = if order.len() > MAX_CANDIDATES {
        MAX_CANDIDATES
    } else {
        order.len()
    };
    let mut out: Vec<WmEntity> = Vec::new();
    let mut i: usize = 0;
    assert(chosen.take(0) =~= seq![]);
    assert(rows(out@) =~= seq![]);
    while i < n
        invariant
            i <= n,
            n <= order@.len(),
            n == chosen.len(),
            es == world@.entities,
            forall|j: int| 0 <= j < order@.len() ==> #[trigger] order@[j] < ids@.len(),
            forall|j: int| 0 <= j < n ==> #[trigger] chosen[j] == views(ids@)[order@[j] as int],
            rows(out@) == with_ids(es, chosen.take(i as int)),
        decreases n - i,
    {
        assert(chosen.take(i + 1).drop_last() =~= chosen.take(i as int));
        assert(chosen.take(i + 1).last() == chosen[i as int]);
        assert(order@[i as int] < ids@.len());
        let id = ids[order[i]].as_str();
        let ghost done = rows(out@);
        let mut j: usize = 0;
        assert(es.take(0) =~= seq![]);
        assert(done + with_id(es.take(0), id@) =~= done);
        while j < world.entities.len()
            invariant
                j <= world.entities@.len(),
                es == world@.entities,
                rows(out@) == done + with_id(es.take(j as int), id@),
            decreases world.entities.len() - j,
        {
            assert(es.take(j + 1).drop_last() =~= es.take(j as int));
            let ghost sofar = rows(out@);
            let ghost some = with_id(es.take(j as int), id@);
            if str_eq(world.entities[j].id.as_str(), id) {
                out.push(world.entities[j].dup());
                assert(rows(out@) =~= sofar.push(es[j as int]));
                assert(done + some.push(es[j as int]) =~= sofar.push(es[j as int]));
            }
            j += 1;
        }
        assert(es.take(j as int) =~= es);
        i += 1;
    }
    assert(chosen.take(i as int) =~= chosen);
    out
}

/// The key table after the entities were indexed one after the other.
pub open spec fn reindexed(keys: Seq<KeyModel>, es: Seq<EntityModel>) -> Seq<KeyModel>
    decreases es.len(),
{
    if es.len() == 0 {
        keys
    } else {
        let e = es.last();
        indexed(reindexed(keys, es.drop_last()), e.id, e.canonical_name, listed(e.aliases))
    }
}

/// Indexes every entity; returns how many.
pub fn reindex_all(world: &mut World) -> (r: usize)
    ensures
        r == old(world)@.entities.len(),
        final(world)@ == (WorldModel {
            keys: reindexed(old(world)@.keys, old(world)@.entities),
            ..old(world)@
        }),
{
    let n = world.entities.len();
    let ghost w = world@;
    let mut i: usize = 0;
    assert(w.entities.take(0) =~= seq![]);
    while i < n
        invariant
            i <= n,
            w == old(world)@,
            n == w.entities.len(),
            world@ == (WorldModel {
                keys: reindexed(w.keys, w.entities.take(i as int)),
                ..w
            }),
        decreases n - i,
    {
        assert(w.entities.take(i + 1).drop_last() =~= w.entities.take(i as int));
        assert(world@.entities.len() == world.entities@.len());
        let e = world.entities[i].dup();
        assert(e@ == w.entities[i as int]);
        let aliases = e.alias_list();
        index_entity(world, e.id.as_str(), e.canonical_name.as_str(), aliases.as_slice());
        i += 1;
    }
    assert(w.entities.take(i as int) =~= w.entities);
    n
}

/// Builds the index if it is empty while entities exist.
pub fn ensure_index(world: &mut World)
    ensures
        final(world)@ == if old(world)@.keys.len() == 0 && old(world)@.entities.len() > 0 {
            WorldModel {
                keys: reindexed(old(world)@.keys, old(world)@.entities),
                ..old(world)@
            }
        } else {
            old(world)@
        },
{
    assert(world@.keys.len() == world.keys@.len());
    assert(world@.entities.len() == world.entities@.len());
    if world.keys.len() == 0 && world.entities.len() > 0 {
        let _ = reindex_all(world);
    }
}

// ---------------------------------------------------------------------------------------------
// What blocking guarantees

/// A row of the table is a key of the entity that the mention has too.
pub open spec fn shares_key(keys: Seq<KeyModel>, mention: Seq<char>, id: Seq<char>, k: int) -> bool {
    0 <= k < keys.len() && keys[k].entity_id == id && hits(keys[k], name_keys(mention))
}

pub proof fn lemma_counted_row(keys: Seq<KeyModel>, mention: Seq<char>, id: Seq<char>)
    ensures
        hit_count(keys, name_keys(mention), id) > 0 <==> exists|k: int|
            shares_key(keys, mention, id, k),
    decreases keys.len(),
{
    if keys.len() > 0 {
        let most = keys.drop_last();
        lemma_counted_row(most, mention, id);
        lemma_hit_ids_distinct(most, name_keys(mention));
        assert(0 <= hit_count(most, name_keys(mention), id));
        if hit_count(most, name_keys(mention), id) > 0 {
            let k = choose|k: int| shares_key(most, mention, id, k);
            assert(shares_key(keys, mention, id, k));
        }
        if hits(keys.last(), name_keys(mention)) && keys.last().entity_id == id {
            assert(shares_key(keys, mention, id, keys.len() - 1));
        }
        if exists|k: int| shares_key(keys, mention, id, k) {
            let k = choose|k: int| shares_key(keys, mention, id, k);
            if k < most.len() {
                assert(shares_key(most, mention, id, k));
            }
        }
    }
}

proof fn lemma_with_id(es: Seq<EntityModel>, id: Seq<char>)
    ensures
        forall|i: int| 0 <= i < with_id(es, id).len() ==> (#[trigger] with_id(es, id)[i]).id == id
            && es.contains(with_id(es, id)[i]),
        unique_ids(es) ==> with_id(es, id).len() <= 1,
        (forall|i: int| 0 <= i < es.len() ==> (#[trigger] es[i]).id != id) ==> with_id(es, id).len()
            == 0,
    decreases es.len(),
{
    if es.len() > 0 {
        let most = es.drop_last();
        lemma_with_id(most, id);
        assert(unique_ids(es) ==> unique_ids(most));
        if es.last().id == id && unique_ids(es) {
            assert forall|i: int| 0 <= i < most.len() implies (#[trigger] most[i]).id != id by {
                assert(es[i].id != es[es.len() - 1].id);
            }
        }
        if forall|i: int| 0 <= i < es.len() ==> (#[trigger] es[i]).id != id {
            assert forall|i: int| 0 <= i < most.len() implies (#[trigger] most[i]).id != id by {
                assert(es[i].id != id);
            }
            assert(es[es.len() - 1].id != id);
        }
        assert forall|i: int| 0 <= i < with_id(es, id).len() implies (#[trigger] with_id(es, id)[i]).id
            == id && es.contains(with_id(es, id)[i]) by {
            if i < with_id(most, id).len() {
                let e = with_id(most, id)[i];
                assert(with_id(es, id)[i] == e);
                assert(most.contains(e));
                let k = choose|k: int| 0 <= k < most.len() && most[k] == e;
                assert(es[k] == e);
            } else {
                assert(es[es.len() - 1] == with_id(es, id)[i]);
            }
        }
    }
}

proof fn lemma_with_ids(es: Seq<EntityModel>, ids: Seq<Seq<char>>)
    ensures
        forall|i: int| 0 <= i < with_ids(es, ids).len() ==> ids.contains(
            (#[trigger] with_ids(es, ids)[i]).id,
        ) && es.contains(with_ids(es, ids)[i]),
        unique_ids(es) ==> with_ids(es, ids).len() <= ids.len(),
    decreases ids.len(),
{
    if ids.len() > 0 {
        let most = ids.drop_last();
        lemma_with_ids(es, most);
        lemma_with_id(es, ids.last());
        let head = with_ids(es, most);
        assert forall|i: int| 0 <= i < with_ids(es, ids).len() implies ids.contains(
            (#[trigger] with_ids(es, ids)[i]).id,
        ) && es.contains(with_ids(es, ids)[i]) by {
            if i < head.len() {
                let e = head[i];
                assert(with_ids(es, ids)[i] == e);
                assert(most.contains(e.id));
                let k = choose|k: int| 0 <= k < most.len() && most[k] == e.id;
                assert(ids[k] == e.id);
            } else {
                let e = with_id(es, ids.last())[i - head.len()];
                assert(with_ids(es, ids)[i] == e);
                assert(ids[ids.len() - 1] == e.id);
            }
        }
    }
}

/// A mention only meets stored entities that share a key with it.
pub proof fn law_candidates_share_a_key(w: WorldModel, mention: Seq<char>, i: int)
    requires
        0 <= i < candidates_of(w, mention).len(),
    ensures
        w.entities.contains(candidates_of(w, mention)[i]),
        exists|k: int| shares_key(w.keys, mention, candidates_of(w, mention)[i].id, k),
{
    let ids = blocked_ids(w.keys, mention);
    let ks = name_keys(mention);
    let all = hit_ids(w.keys, ks);
    let counts = Seq::new(all.len(), |i: int| hit_count(w.keys, ks, all[i]));
    lemma_with_ids(w.entities, ids);
    let e = candidates_of(w, mention)[i];
    assert(ids.contains(e.id));
    let k = choose|k: int| 0 <= k < ids.len() && ids[k] == e.id;
    crate::order::lemma_ranking(counts);
    assert(0 <= ranking(counts)[k] < counts.len());
    assert(all[ranking(counts)[k]] == e.id);
    lemma_hit_ids_distinct(w.keys, ks);
    assert(all.contains(e.id));
    lemma_counted_row(w.keys, mention, e.id);
}

/// A mention meets at most fifty entities.
pub proof fn law_candidates_are_few(w: WorldModel, mention: Seq<char>)
    requires
        unique_ids(w.entities),
    ensures
        candidates_of(w, mention).len() <= MAX_CANDIDATES,
{
    lemma_with_ids(w.entities, blocked_ids(w.keys, mention));
}

/// An entity is found under each of its names: once it is indexed, it shares a key with its
/// canonical name and with each alias of which something is left when normalized.
pub proof fn law_indexed_names_are_found(
    keys: Seq<KeyModel>,
    id: Seq<char>,
    canonical: Seq<char>,
    aliases: Seq<Seq<char>>,
    name: Seq<char>,
)
    requires
        name == canonical || aliases.contains(name),
        normalized(name).len() > 0,
    ensures
        hit_ids(indexed(keys, id, canonical, aliases), name_keys(name)).contains(id),
{
    let norm = ("norm"@, normalized(name));
    let own = seq![norm] + token_keys(content(normalized(name)));
    let after = indexed(keys, id, canonical, aliases);
    crate::order::lemma_sorted_pairs(own);
    assert(own[0] == norm);
    assert(name_keys(name).contains(norm));
    let all = name_keys(canonical) + keys_of_names(aliases);
    assert(all.contains(norm)) by {
        if name == canonical {
            let k = choose|k: int| 0 <= k < name_keys(name).len() && name_keys(name)[k] == norm;
            assert(all[k] == norm);
        } else {
            lemma_keys_of_names(aliases, name, norm);
            let k = choose|k: int|
                0 <= k < keys_of_names(aliases).len() && keys_of_names(aliases)[k] == norm;
            assert(all[name_keys(canonical).len() + k] == norm);
        }
    }
    crate::order::lemma_sorted_pairs(all);
    let ks = entity_keys(canonical, aliases);
    assert(ks.contains(norm));
    let k = choose|k: int| 0 <= k < ks.len() && ks[k] == norm;
    let at = without_entity(keys, id).len() + k;
    assert(after[at] == key_rows(id, ks)[k]);
    assert(shares_key(after, name, id, at));
    lemma_counted_row(after, name, id);
    lemma_hit_ids_distinct(after, name_keys(name));
}

proof fn lemma_keys_of_names(
    names: Seq<Seq<char>>,
    name: Seq<char>,
    key: (Seq<char>, Seq<char>),
)
    requires
        names.contains(name),
        name_keys(name).contains(key),
    ensures
        keys_of_names(names).contains(key),
    decreases names.len(),
{
    let most = names.drop_last();
    let head = keys_of_names(most);
    let tail = name_keys(names.last());
    assert(keys_of_names(names) == head + tail);
    if names.last() == name {
        let k = choose|k: int| 0 <= k < tail.len() && tail[k] == key;
        assert((head + tail)[head.len() + k] == key);
    } else {
        let m = choose|m: int| 0 <= m < names.len() && names[m] == name;
        assert(most[m] == name);
        lemma_keys_of_names(most, name, key);
        let k = choose|k: int| 0 <= k < head.len() && head[k] == key;
        assert((head + tail)[k] == key);
    }
}

proof fn lemma_with_id_agrees(es: Seq<EntityModel>, fs: Seq<EntityModel>, id: Seq<char>)
    requires
        es.len() == fs.len(),
        forall|i: int| 0 <= i < es.len() ==> (#[trigger] es[i]).id == (#[trigger] fs[i]).id,
    ensures
        with_id(es, id).len() == with_id(fs, id).len(),
        forall|i: int|
            0 <= i < with_id(es, id).len() ==> (#[trigger] with_id(es, id)[i]).id == (
            #[trigger] with_id(fs, id)[i]).id,
    decreases es.len(),
{
    if es.len() > 0 {
        assert(es.last().id == fs.last().id);
        lemma_with_id_agrees(es.drop_last(), fs.drop_last(), id);
    }
}

/// Which entities a set of ids picks depends on the ids of the entities alone.
pub(crate) proof fn lemma_with_ids_agrees(
    es: Seq<EntityModel>,
    fs: Seq<EntityModel>,
    ids: Seq<Seq<char>>,
)
    requires
        es.len() == fs.len(),
        forall|i: int| 0 <= i < es.len() ==> (#[trigger] es[i]).id == (#[trigger] fs[i]).id,
    ensures
        with_ids(es, ids).len() == with_ids(fs, ids).len(),
        forall|i: int|
            0 <= i < with_ids(es, ids).len() ==> (#[trigger] with_ids(es, ids)[i]).id == (
            #[trigger] with_ids(fs, ids)[i]).id,
    decreases ids.len(),
{
    if ids.len() > 0 {
        let most = ids.drop_last();
        lemma_with_ids_agrees(es, fs, most);
        lemma_with_id_agrees(es, fs, ids.last());
        let n = with_ids(es, most).len();
        assert forall|i: int| 0 <= i < with_ids(es, ids).len() implies (#[trigger] with_ids(
            es,
            ids,
        )[i]).id == (#[trigger] with_ids(fs, ids)[i]).id by {
            if i < n {
                assert(with_ids(es, most)[i].id == with_ids(fs, most)[i].id);
            } else {
                assert(with_id(es, ids.last())[i - n].id == with_id(fs, ids.last())[i - n].id);
            }
        }
    }
}

} // verus!
