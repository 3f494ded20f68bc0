//! Relations: what an observation does to the edges, and what the graph says of an entity.

use vstd::prelude::*;

use crate::models::{listed, printed_list, CandidateModel, EdgeModel};
use crate::resolve::{
    consistent, contends, cooc_of, corroborating, corroboration_of, elapsed_seconds, exclusive,
    law_late_fact_is_superseded, law_one_holder_at_a_time, lemma_stated_at, link_count, linked,
    newer_rival, recent_at, rivals, stated_at, states, superseded, valid_from,
};
use crate::text::before;
use crate::world::StampModel;

verus! {

/// The edge says that `a` stands in the relation to `b`; of two entities that are mentioned
/// together it does not matter which comes first.
pub open spec fn says(e: EdgeModel, a: Seq<char>, b: Seq<char>, edge_type: Seq<char>) -> bool {
    &&& e.edge_type == edge_type
    &&& (e.from_id == a && e.to_id == b) || (edge_type == "mentioned_with"@ && e.from_id == b
        && e.to_id == a)
}

/// The offices, which one entity holds of one other at a time.
pub open spec fn is_office(t: Seq<char>) -> bool {
    ||| t == "ceo_of"@
    ||| t == "cfo_of"@
    ||| t == "cto_of"@
    ||| t == "coo_of"@
    ||| t == "chairman_of"@
    ||| t == "president_of"@
}

/// The relations that an entity has to one other at a time.
pub open spec fn has_one_object(t: Seq<char>) -> bool {
    ||| is_office(t)
    ||| t == "headquartered_in"@
    ||| t == "based_in"@
    ||| t == "owned_by"@
    ||| t == "acquired_by"@
}

/// The relations that one entity at a time has to another.
pub open spec fn has_one_subject(t: Seq<char>) -> bool {
    is_office(t) || t == "parent_of"@
}

proof fn lemma_parent_is_apart(t: Seq<char>)
    requires
        t == "parent_of"@,
    ensures
        !has_one_object(t),
{
    reveal_strlit("parent_of");
    reveal_strlit("ceo_of");
    reveal_strlit("cfo_of");
    reveal_strlit("cto_of");
    reveal_strlit("coo_of");
    reveal_strlit("chairman_of");
    reveal_strlit("president_of");
    reveal_strlit("headquartered_in");
    reveal_strlit("based_in");
    reveal_strlit("owned_by");
    reveal_strlit("acquired_by");
    assert("parent_of"@.len() == 9);
    assert("ceo_of"@.len() == 6 && "cfo_of"@.len() == 6 && "cto_of"@.len() == 6 && "coo_of"@.len()
        == 6);
    assert("chairman_of"@.len() == 11 && "president_of"@.len() == 12);
    assert("headquartered_in"@.len() == 16 && "based_in"@.len() == 8 && "owned_by"@.len() == 8
        && "acquired_by"@.len() == 11);
}

proof fn lemma_exclusive(t: Seq<char>)
    ensures
        exclusive(t) == (has_one_object(t), has_one_subject(t)),
{
    if t == "parent_of"@ {
        lemma_parent_is_apart(t);
    }
}

/// What an observation of a relation does. Of an entity with itself nothing is recorded. A relation
/// that no edge states yet gets an edge with a weight of one. One that is stated is observed again:
/// the first such edge weighs one more, has been seen now, has one more source, keeps its end, and
/// no other edge changes.
pub proof fn law_relation_is_recorded(
    es: Seq<EdgeModel>,
    a: Seq<char>,
    b: Seq<char>,
    edge_type: Seq<char>,
    item_id: Seq<char>,
    observed_at: Seq<char>,
    s: StampModel,
    p: int,
)
    ensures
        ({
            let after = linked(es, a, b, edge_type, item_id, observed_at, s);
            let known = exists|i: int|
                0 <= i < es.len() && says(#[trigger] es[i], a, b, edge_type);
            &&& a == b ==> after == es
            &&& a != b && !known ==> {
                let e = after.last();
                &&& after.len() == es.len() + 1
                &&& e.id == s.id
                &&& e.from_id == a
                &&& e.to_id == b
                &&& e.edge_type == edge_type
                &&& e.weight == 1
                &&& e.source_item_ids == printed_list(seq![item_id])
                &&& e.first_seen == s.now
                &&& e.last_seen == s.now
                &&& e.valid_at == Some(observed_at)
                &&& e.invalid_at is Some <==> e.superseded_by is Some
            }
            &&& a != b && 0 <= p < es.len() && says(es[p], a, b, edge_type) && (forall|i: int|
                0 <= i < p ==> !says(#[trigger] es[i], a, b, edge_type)) ==> {
                let (x, y) = (es[p], after[p]);
                &&& after.len() == es.len()
                &&& x.weight < u64::MAX ==> y.weight == x.weight + 1
                &&& y.last_seen == s.now
                &&& y.first_seen == x.first_seen
                &&& y.invalid_at == x.invalid_at
                &&& y.superseded_by == x.superseded_by
                &&& y.from_id == x.from_id && y.to_id == x.to_id && y.id == x.id
                &&& x.valid_at is None ==> y.valid_at == Some(observed_at)
                &&& x.valid_at is Some && before(observed_at, x.valid_at->0) ==> y.valid_at == Some(
                    observed_at,
                )
                &&& x.valid_at is Some && !before(observed_at, x.valid_at->0) ==> y.valid_at
                    == x.valid_at
                &&& listed(x.source_item_ids).contains(item_id) ==> y.source_item_ids
                    == printed_list(listed(x.source_item_ids))
                &&& !listed(x.source_item_ids).contains(item_id) ==> y.source_item_ids
                    == printed_list(listed(x.source_item_ids).push(item_id))
                &&& forall|i: int|
                    0 <= i < es.len() && (#[trigger] es[i]).id != x.id ==> after[i] == es[i]
            }
        }),
{
    lemma_stated_at(es, a, b, edge_type);
    let at = stated_at(es, a, b, edge_type);
    if at < es.len() {
        assert(says(es[at], a, b, edge_type));
    }
    if 0 <= p < es.len() && says(es[p], a, b, edge_type) && (forall|i: int|
        0 <= i < p ==> !says(#[trigger] es[i], a, b, edge_type)) {
        if at < p {
            assert(says(es[at], a, b, edge_type));
        }
        if p < at {
            assert(!crate::resolve::states(es[p], a, b, edge_type));
        }
    }
}

/// No two valid edges hold a place that only one can have: an entity holds one office of a kind,
/// and an office has one holder; an entity has one seat and one owner; an entity has one parent.
pub open spec fn one_at_a_time(es: Seq<EdgeModel>) -> bool {
    forall|i: int, j: int|
        #![trigger es[i], es[j]]
        0 <= i < j < es.len() && es[i].edge_type == es[j].edge_type && es[i].invalid_at is None
            && es[j].invalid_at is None ==> {
            &&& has_one_object(es[i].edge_type) ==> es[i].from_id != es[j].from_id
            &&& has_one_subject(es[i].edge_type) ==> es[i].to_id != es[j].to_id
        }
}

/// An observation leaves at most one valid holder of every place that only one can have, and an
/// observation of any other relation takes the validity of no edge.
pub proof fn law_one_valid_holder(
    es: Seq<EdgeModel>,
    a: Seq<char>,
    b: Seq<char>,
    edge_type: Seq<char>,
    item_id: Seq<char>,
    observed_at: Seq<char>,
    s: StampModel,
)
    ensures
        ({
            let after = linked(es, a, b, edge_type, item_id, observed_at, s);
            &&& one_at_a_time(es) ==> one_at_a_time(after)
            &&& !has_one_object(edge_type) && !has_one_subject(edge_type) ==> forall|i: int|
                #![trigger after[i]]
                0 <= i < es.len() ==> after[i].invalid_at == es[i].invalid_at
                    && after[i].superseded_by == es[i].superseded_by
        }),
{
    let after = linked(es, a, b, edge_type, item_id, observed_at, s);
    lemma_exclusive(edge_type);
    if one_at_a_time(es) {
        assert(consistent(es)) by {
            assert forall|i: int, j: int| 0 <= i < j < es.len() implies !crate::resolve::contradict(
                #[trigger] es[i],
                #[trigger] es[j],
            ) by {
                lemma_exclusive(es[i].edge_type);
            }
        }
        law_one_holder_at_a_time(es, a, b, edge_type, item_id, observed_at, s);
        assert forall|i: int, j: int|
            #![trigger after[i], after[j]]
            0 <= i < j < after.len() && after[i].edge_type == after[j].edge_type
                && after[i].invalid_at is None && after[j].invalid_at is None implies ({
            &&& has_one_object(after[i].edge_type) ==> after[i].from_id != after[j].from_id
            &&& has_one_subject(after[i].edge_type) ==> after[i].to_id != after[j].to_id
        }) by {
            lemma_exclusive(after[i].edge_type);
            assert(!crate::resolve::contradict(after[i], after[j]));
        }
    }
}

/// A new fact ends those that held its place and are not newer than it: they stop being valid when
/// it was observed, and name it as what superseded them.
pub proof fn law_newer_fact_supersedes(
    es: Seq<EdgeModel>,
    a: Seq<char>,
    b: Seq<char>,
    edge_type: Seq<char>,
    item_id: Seq<char>,
    observed_at: Seq<char>,
    s: StampModel,
    i: int,
)
    requires
        a != b,
        0 <= i < es.len(),
        forall|k: int| 0 <= k < es.len() ==> !says(#[trigger] es[k], a, b, edge_type),
        es[i].edge_type == edge_type,
        es[i].invalid_at is None,
        (has_one_object(edge_type) && es[i].from_id == a) || (has_one_subject(edge_type)
            && es[i].to_id == b),
        es[i].valid_at matches Some(v) && !before(observed_at, v),
    ensures
        ({
            let after = linked(es, a, b, edge_type, item_id, observed_at, s);
            &&& after[i].invalid_at == Some(observed_at)
            &&& after[i].superseded_by == Some(s.id)
        }),
{
    lemma_exclusive(edge_type);
    lemma_stated_at(es, a, b, edge_type);
    let at = stated_at(es, a, b, edge_type);
    if at < es.len() {
        assert(says(es[at], a, b, edge_type));
    }
}

// ---------------------------------------------------------------------------------------------
// Evidence from the graph

/// How strongly an entity is linked with those around it: not at all where there are none or no
/// edge links it with one of them, and by at most all of them; an edge that links it counts, any
/// other does not.
pub proof fn law_links_count(
    es: Seq<EdgeModel>,
    e: EdgeModel,
    id: Seq<char>,
    ids: Seq<Seq<char>>,
)
    requires
        es.len() < 0x1_0000_0000_0000_0000,
        ids.len() < 0x1_0000_0000_0000_0000,
    ensures
        ({
            let (x, y) = (cooc_of(es, id, ids), cooc_of(es.push(e), id, ids));
            let links = (e.from_id == id && ids.contains(e.to_id)) || (e.to_id == id
                && ids.contains(e.from_id));
            &&& ids.len() == 0 ==> x.num == 0 && x.den == 1
            &&& ids.len() > 0 ==> x.den == ids.len() && x.num <= x.den
            &&& es.len() == 0 ==> x.num == 0
            &&& ids.len() > 0 && links ==> y.num == if x.num < x.den {
                x.num + 1
            } else {
                x.num as int
            }
            &&& !links ==> y == x
        }),
{
    lemma_link_count_range(es, id, ids);
    assert(es.push(e).drop_last() =~= es);
}

proof fn lemma_link_count_range(es: Seq<EdgeModel>, id: Seq<char>, ids: Seq<Seq<char>>)
    ensures
        0 <= link_count(es, id, ids) <= es.len(),
    decreases es.len(),
{
    if es.len() > 0 {
        lemma_link_count_range(es.drop_last(), id, ids);
    }
}

/// The mention counts for the entity: it was merged with it, resolved to it or confirmed.
pub open spec fn speaks_for(c: CandidateModel, id: Seq<char>) -> bool {
    &&& c.best_match_entity_id == Some(id)
    &&& c.status == "auto_merged"@ || c.status == "resolved"@ || c.status == "confirmed"@
}

/// What corroborates an entity: the items with a mention that counts for it, each once, and no
/// others.
pub proof fn law_items_corroborate_once(cs: Seq<CandidateModel>, id: Seq<char>, item: Seq<char>)
    ensures
        corroborating(cs, id).no_duplicates(),
        corroborating(cs, id).contains(item) <==> exists|i: int|
            0 <= i < cs.len() && speaks_for(#[trigger] cs[i], id) && cs[i].source_item_id == item,
        corroborating(cs, id).len() < 0x1_0000_0000 ==> corroboration_of(cs, id)
            == corroborating(cs, id).len(),
    decreases cs.len(),
{
    if cs.len() > 0 {
        let most = cs.drop_last();
        let last = cs.last();
        law_items_corroborate_once(most, id, item);
        law_items_corroborate_once(most, id, last.source_item_id);
        crate::matcher::lemma_push_contains(
            corroborating(most, id),
            last.source_item_id,
            item,
        );
        assert(cs[cs.len() - 1] == last);
        if exists|i: int|
            0 <= i < most.len() && speaks_for(#[trigger] most[i], id) && most[i].source_item_id
                == item {
            let i = choose|i: int|
                0 <= i < most.len() && speaks_for(#[trigger] most[i], id)
                    && most[i].source_item_id == item;
            assert(cs[i] == most[i]);
        }
        if exists|i: int|
            0 <= i < cs.len() && speaks_for(#[trigger] cs[i], id) && cs[i].source_item_id == item {
            let i = choose|i: int|
                0 <= i < cs.len() && speaks_for(#[trigger] cs[i], id) && cs[i].source_item_id
                    == item;
            if i < most.len() {
                assert(most[i] == cs[i]);
            }
        }
    }
}

/// An entity is recent that was seen less than thirty days ago.
pub proof fn law_recent_is_thirty_days(ts: Seq<char>, now: Seq<char>)
    ensures
        recent_at(ts, now) <==> elapsed_seconds(ts, now) is Some && elapsed_seconds(ts, now)->0 < 30
            * 24 * 60 * 60,
{
}

proof fn lemma_rival_is_an_edge(
    known: Option<(Seq<char>, Seq<char>)>,
    es: Seq<EdgeModel>,
    edge_type: Seq<char>,
    from_side: bool,
    key: Seq<char>,
    time: Seq<char>,
)
    ensures
        ({
            let r = newer_rival(known, es, edge_type, from_side, key, time);
            r != known ==> exists|j: int|
                0 <= j < es.len() && rivals(#[trigger] es[j], edge_type, from_side, key) && before(
                    time,
                    valid_from(es[j]),
                ) && r == Some((valid_from(es[j]), es[j].id))
        }),
    decreases es.len(),
{
    if es.len() > 0 {
        let most = es.drop_last();
        lemma_rival_is_an_edge(known, most, edge_type, from_side, key, time);
        let r = newer_rival(known, most, edge_type, from_side, key, time);
        let after = newer_rival(known, es, edge_type, from_side, key, time);
        if after != known {
            if after == r {
                let j = choose|j: int|
                    0 <= j < most.len() && rivals(#[trigger] most[j], edge_type, from_side, key)
                        && before(time, valid_from(most[j])) && r == Some(
                        (valid_from(most[j]), most[j].id),
                    );
                assert(es[j] == most[j]);
            } else {
                assert(es[es.len() - 1] == es.last());
            }
        }
    }
}

/// A fact that becomes known after a later one contradicted it ends where one of those that
/// contradict it begins, and names that one as what superseded it.
pub proof fn law_late_fact_ends_where_another_begins(
    es: Seq<EdgeModel>,
    a: Seq<char>,
    b: Seq<char>,
    edge_type: Seq<char>,
    source: Seq<char>,
    time: Seq<char>,
    s: StampModel,
    i: int,
)
    requires
        a != b,
        forall|j: int| 0 <= j < es.len() ==> !says(#[trigger] es[j], a, b, edge_type),
        0 <= i < es.len(),
        contends(es[i], a, b, edge_type),
        before(time, valid_from(es[i])),
    ensures
        ({
            let late = linked(es, a, b, edge_type, source, time, s).last();
            exists|j: int|
                0 <= j < es.len() && contends(#[trigger] es[j], a, b, edge_type) && before(
                    time,
                    valid_from(es[j]),
                ) && late.invalid_at == es[j].valid_at && late.superseded_by == Some(es[j].id)
        }),
{
    assert forall|j: int| 0 <= j < es.len() implies !states(
        #[trigger] es[j],
        a,
        b,
        edge_type,
    ) by {
        assert(!says(es[j], a, b, edge_type));
    }
    law_late_fact_is_superseded(es, a, b, edge_type, source, time, s, i);
    let (from_excl, to_excl) = exclusive(edge_type);
    let es1 = if from_excl {
        superseded(es, edge_type, true, a, s.id, time)
    } else {
        es
    };
    let r1 = if from_excl {
        newer_rival(None, es, edge_type, true, a, time)
    } else {
        None
    };
    lemma_rival_is_an_edge(None, es, edge_type, true, a, time);
    lemma_rival_is_an_edge(r1, es1, edge_type, false, b, time);
    lemma_stated_at(es, a, b, edge_type);
    assert(stated_at(es, a, b, edge_type) == es.len());
    let r = if to_excl {
        newer_rival(r1, es1, edge_type, false, b, time)
    } else {
        r1
    };
    let late = linked(es, a, b, edge_type, source, time, s).last();
    assert(r is Some);
    let j = if r == r1 {
        choose|j: int|
            0 <= j < es.len() && rivals(#[trigger] es[j], edge_type, true, a) && before(
                time,
                valid_from(es[j]),
            ) && r == Some((valid_from(es[j]), es[j].id))
    } else {
        choose|j: int|
            0 <= j < es1.len() && rivals(#[trigger] es1[j], edge_type, false, b) && before(
                time,
                valid_from(es1[j]),
            ) && r == Some((valid_from(es1[j]), es1[j].id))
    };
    assert(contends(es[j], a, b, edge_type));
    assert(valid_from(es[j]) == valid_from(es1[j]));
    assert(before(time, valid_from(es[j])));
    assert(es[j].valid_at is Some);
}

} // verus!
