//! Reports: what a dossier, a provenance trace, a digest and a brief list, and in which order.

use vstd::prelude::*;

use crate::adapters::usgs::QuakeModel;
use crate::dossier::{network, shown, timeline};
use crate::laws::lists::{
    lemma_ascended, lemma_push_has, lemma_ranked, lists_earliest_first, lists_highest_first,
};
use crate::mission::{
    all_ingested, corroboration, grouped, occurrences, top_entities, typed_count, valid_edges,
};
use crate::models::{CandidateModel, EdgeModel, EntityModel, RawModel};
use crate::order::{ranking, sorted_texts};
use crate::resolve::{candidate_of, corroborating};
use crate::table::{arranged, places};
use crate::text::before;
use crate::watch::{
    is_new, line_alarms, line_text, new_edges, new_entity_count, new_lines, quake_alarm,
    quake_alarms, review_count, LineModel,
};
use crate::why::{decisions_on, mentions_of, relation_key, relations_of};
use crate::world::{entity_of, item_of, StampModel, WorldModel};

verus! {

// ---------------------------------------------------------------------------------------------
// The dossier

/// The timeline holds every typed relation once, undated ones first and then the earliest first;
/// the network holds every co-mention once, the heaviest first, of which at most fifteen are shown.
pub proof fn law_dossier_order(edges: Seq<EdgeModel>)
    ensures
        lists_earliest_first(
            timeline(edges),
            edges.len() as int,
            |i: int| edges[i].edge_type != "mentioned_with"@,
            |i: int| edges[i].valid_at,
        ),
        lists_highest_first(
            network(edges),
            edges.len() as int,
            |i: int| edges[i].edge_type == "mentioned_with"@,
            |i: int| edges[i].weight as int,
        ),
        forall|n: nat| #[trigger] shown(n) <= 15 && (n <= 15 ==> shown(n) == n) && (n > 15
            ==> shown(n) == 15),
{
    let n = edges.len() as int;
    let typed = |i: int| edges[i].edge_type != "mentioned_with"@;
    let since = |i: int| edges[i].valid_at;
    let at = places(n, typed);
    lemma_ascended(n, typed, since);
    assert(Seq::new(at.len(), |k: int| since(at[k])) =~= Seq::new(
        at.len(),
        |k: int| edges[at[k]].valid_at,
    ));
    let met = |i: int| edges[i].edge_type == "mentioned_with"@;
    let weight = |i: int| edges[i].weight as int;
    let by = places(n, met);
    lemma_ranked(n, met, weight);
    assert(Seq::new(by.len(), |k: int| weight(by[k])) =~= Seq::new(
        by.len(),
        |k: int| edges[by[k]].weight as int,
    ));
}

// ---------------------------------------------------------------------------------------------
// The trace

/// The mentions of an entity are those that were resolved to it and whose source is stored, the
/// oldest first; the decisions on it are those on such mentions, the oldest first.
pub proof fn law_trace_is_complete(w: WorldModel, id: Seq<char>)
    ensures
        lists_earliest_first(
            mentions_of(w, id),
            w.candidates.len() as int,
            |i: int|
                w.candidates[i].best_match_entity_id == Some(id) && item_of(
                    w.source_items,
                    w.candidates[i].source_item_id,
                ) is Some,
            |i: int| Some(w.candidates[i].created_at),
        ),
        lists_earliest_first(
            decisions_on(w, id),
            w.decisions.len() as int,
            |i: int|
                candidate_of(w.candidates, w.decisions[i].candidate_id) is Some && candidate_of(
                    w.candidates,
                    w.decisions[i].candidate_id,
                )->0.best_match_entity_id == Some(id),
            |i: int| Some(w.decisions[i].decided_at),
        ),
{
    let n = w.candidates.len() as int;
    let mine = |i: int|
        w.candidates[i].best_match_entity_id == Some(id) && item_of(
            w.source_items,
            w.candidates[i].source_item_id,
        ) is Some;
    let made = |i: int| Some(w.candidates[i].created_at);
    let traced = |i: int| crate::why::traces(w, w.candidates[i], id);
    crate::table::lemma_places_agree(n, mine, traced);
    let at = places(n, mine);
    lemma_ascended(n, mine, made);
    assert(Seq::new(at.len(), |k: int| made(at[k])) =~= Seq::new(
        at.len(),
        |k: int| Some(w.candidates[at[k]].created_at),
    ));
    let m = w.decisions.len() as int;
    let on = |i: int|
        candidate_of(w.candidates, w.decisions[i].candidate_id) is Some && candidate_of(
            w.candidates,
            w.decisions[i].candidate_id,
        )->0.best_match_entity_id == Some(id);
    let taken = |i: int| Some(w.decisions[i].decided_at);
    let judged = |i: int| crate::why::judges(w, w.decisions[i], id);
    crate::table::lemma_places_agree(m, on, judged);
    let by = places(m, on);
    lemma_ascended(m, on, taken);
    assert(Seq::new(by.len(), |k: int| taken(by[k])) =~= Seq::new(
        by.len(),
        |k: int| Some(w.decisions[by[k]].decided_at),
    ));
}

/// The relations of an entity are those that it is an end of, without the superseded ones where
/// only valid ones are asked for: typed ones before co-mentions, and of each the heaviest first.
pub proof fn law_relations_of_an_entity(
    edges: Seq<EdgeModel>,
    id: Seq<char>,
    valid_only: bool,
    i: int,
    j: int,
)
    ensures
        ({
            let r = relations_of(edges, id, valid_only);
            &&& forall|p: int|
                0 <= p < edges.len() ==> (#[trigger] r.contains(p) <==> (edges[p].from_id == id
                    || edges[p].to_id == id) && (!valid_only || edges[p].invalid_at is None))
            &&& r.no_duplicates()
            &&& 0 <= i < j < r.len() ==> {
                let (x, y) = (edges[r[i]], edges[r[j]]);
                &&& y.edge_type != "mentioned_with"@ ==> x.edge_type != "mentioned_with"@
                &&& (x.edge_type == "mentioned_with"@ <==> y.edge_type == "mentioned_with"@)
                    ==> x.weight >= y.weight
            }
        }),
{
    let n = edges.len() as int;
    let fits = |i: int|
        crate::why::touches(edges[i], id) && (!valid_only || edges[i].invalid_at is None);
    let key = |i: int| relation_key(edges[i]);
    let at = places(n, fits);
    lemma_ranked(n, fits, key);
    assert(Seq::new(at.len(), |k: int| key(at[k])) =~= Seq::new(
        at.len(),
        |k: int| relation_key(edges[at[k]]),
    ));
    let r = relations_of(edges, id, valid_only);
    assert(lists_highest_first(r, n, fits, key));
    assert forall|p: int| 0 <= p < edges.len() implies (#[trigger] r.contains(p) <==> (
    edges[p].from_id == id || edges[p].to_id == id) && (!valid_only || edges[p].invalid_at
        is None)) by {
        if r.contains(p) {
            let k = choose|k: int| 0 <= k < r.len() && r[k] == p;
            assert(fits(r[k]));
        }
        assert(fits(p) ==> r.contains(p));
    }
    if 0 <= i < j < r.len() {
        assert(key(r[i]) >= key(r[j]));
    }
}

// ---------------------------------------------------------------------------------------------
// The digest

/// The edge came up in the cycle: it is typed and valid, was first seen when the cycle had begun,
/// and both of its ends are stored.
pub open spec fn came_up(w: WorldModel, e: EdgeModel, started: Seq<char>) -> bool {
    &&& !before(e.first_seen, started)
    &&& e.edge_type != "mentioned_with"@
    &&& e.invalid_at is None
    &&& entity_of(w.entities, e.from_id) is Some
    &&& entity_of(w.entities, e.to_id) is Some
}

/// A cycle reports the relations that came up in it, the heaviest first, at most two hundred; one
/// that is not among them weighs no more than any that is.
pub proof fn law_cycle_reports_what_came_up(w: WorldModel, started: Seq<char>)
    ensures
        ({
            let r = new_edges(w, started);
            let ls = new_lines(w, started);
            &&& r.len() <= 200
            &&& r.no_duplicates()
            &&& forall|i: int|
                0 <= i < r.len() ==> 0 <= #[trigger] r[i] < w.edges.len() && came_up(
                    w,
                    w.edges[r[i]],
                    started,
                )
            &&& forall|i: int, j: int|
                0 <= i < j < r.len() ==> w.edges[#[trigger] r[i]].weight >= w.edges[
                    #[trigger] r[j]].weight
            &&& forall|p: int|
                0 <= p < w.edges.len() && came_up(w, #[trigger] w.edges[p], started)
                    && !r.contains(p) ==> r.len() == 200 && forall|i: int|
                    0 <= i < 200 ==> w.edges[#[trigger] r[i]].weight >= w.edges[p].weight
            &&& ls.len() == r.len()
            &&& forall|i: int|
                #![trigger ls[i]]
                0 <= i < ls.len() ==> {
                    let e = w.edges[r[i]];
                    &&& ls[i].edge_type == e.edge_type
                    &&& ls[i].weight == e.weight
                    &&& ls[i].valid_at == e.valid_at
                    &&& ls[i].from == entity_of(w.entities, e.from_id)->0.canonical_name
                    &&& ls[i].to == entity_of(w.entities, e.to_id)->0.canonical_name
                }
        }),
{
    let n = w.edges.len() as int;
    let fits = |i: int| is_new(w, w.edges[i], started);
    let key = |i: int| w.edges[i].weight as int;
    let at = places(n, fits);
    lemma_ranked(n, fits, key);
    assert(Seq::new(at.len(), |k: int| key(at[k])) =~= Seq::new(
        at.len(),
        |k: int| w.edges[at[k]].weight as int,
    ));
    let all = arranged(at, ranking(Seq::new(at.len(), |k: int| w.edges[at[k]].weight as int)));
    assert(lists_highest_first(all, n, fits, key));
    let r = new_edges(w, started);
    assert forall|i: int| 0 <= i < r.len() implies 0 <= #[trigger] r[i] < w.edges.len() && came_up(
        w,
        w.edges[r[i]],
        started,
    ) by {
        assert(r[i] == all[i]);
        assert(fits(all[i]));
    }
    assert forall|i: int, j: int| 0 <= i < j < r.len() implies w.edges[#[trigger] r[i]].weight
        >= w.edges[#[trigger] r[j]].weight by {
        assert(r[i] == all[i] && r[j] == all[j]);
        assert(key(all[i]) >= key(all[j]));
    }
    assert forall|p: int|
        0 <= p < w.edges.len() && came_up(w, #[trigger] w.edges[p], started) && !r.contains(
            p,
        ) implies r.len() == 200 && forall|i: int|
        0 <= i < 200 ==> w.edges[#[trigger] r[i]].weight >= w.edges[p].weight by {
        assert(fits(p));
        let k = choose|k: int| 0 <= k < all.len() && all[k] == p;
        if k < r.len() {
            assert(r[k] == p);
        }
        assert forall|i: int| 0 <= i < 200 implies w.edges[#[trigger] r[i]].weight
            >= w.edges[p].weight by {
            assert(r[i] == all[i]);
            assert(key(all[i]) >= key(all[k]));
        }
    }
    assert forall|i: int, j: int| 0 <= i < j < r.len() implies r[i] != r[j] by {
        assert(r[i] == all[i] && r[j] == all[j]);
    }
}

/// The relations that are reported at once whatever they weigh.
pub open spec fn is_alarming(t: Seq<char>) -> bool {
    ||| t == "suing"@
    ||| t == "sued_by"@
    ||| t == "acquired"@
    ||| t == "acquired_by"@
    ||| t == "merged_with"@
    ||| t == "ceo_of"@
    ||| t == "cfo_of"@
    ||| t == "resigned_from"@
    ||| t == "fired"@
    ||| t == "indicted"@
    ||| t == "charged"@
    ||| t == "sanctioned"@
    ||| t == "banned"@
    ||| t == "hacked"@
    ||| t == "breached"@
}

proof fn lemma_alarming(t: Seq<char>)
    ensures
        crate::watch::alarming_types().contains(t) <==> is_alarming(t),
{
    let ts = crate::watch::alarming_types();
    assert(ts[0] == "suing"@ && ts[1] == "sued_by"@ && ts[2] == "acquired"@ && ts[3]
        == "acquired_by"@ && ts[4] == "merged_with"@ && ts[5] == "ceo_of"@ && ts[6] == "cfo_of"@
        && ts[7] == "resigned_from"@ && ts[8] == "fired"@ && ts[9] == "indicted"@ && ts[10]
        == "charged"@ && ts[11] == "sanctioned"@ && ts[12] == "banned"@ && ts[13] == "hacked"@
        && ts[14] == "breached"@);
    if ts.contains(t) {
        let k = choose|k: int| 0 <= k < ts.len() && ts[k] == t;
    }
}

/// A digest escalates exactly the relations of an alarming type and those with a weight of two or
/// more, in their order.
pub proof fn law_alarms_are_exact(ls: Seq<LineModel>, t: Seq<char>)
    ensures
        line_alarms(ls).contains(t) <==> exists|i: int|
            0 <= i < ls.len() && (is_alarming((#[trigger] ls[i]).edge_type) || ls[i].weight >= 2)
                && line_text(ls[i]) == t,
        line_alarms(ls).len() <= ls.len(),
        (forall|i: int|
            0 <= i < ls.len() ==> is_alarming((#[trigger] ls[i]).edge_type) || ls[i].weight >= 2)
            ==> line_alarms(ls).len() == ls.len(),
        line_alarms(ls).len() == 0 <==> forall|i: int|
            0 <= i < ls.len() ==> !is_alarming((#[trigger] ls[i]).edge_type) && ls[i].weight < 2,
    decreases ls.len(),
{
    if ls.len() > 0 {
        let most = ls.drop_last();
        let last = ls.last();
        law_alarms_are_exact(most, t);
        lemma_alarming(last.edge_type);
        lemma_push_has(line_alarms(most), line_text(last), t);
        assert(ls[ls.len() - 1] == last);
        assert forall|i: int| 0 <= i < most.len() implies #[trigger] most[i] == ls[i] by {}
        if line_alarms(most).contains(t) {
            let i = choose|i: int|
                0 <= i < most.len() && (is_alarming((#[trigger] most[i]).edge_type)
                    || most[i].weight >= 2) && line_text(most[i]) == t;
            assert(ls[i] == most[i]);
        }
        if exists|i: int|
            0 <= i < ls.len() && (is_alarming((#[trigger] ls[i]).edge_type) || ls[i].weight >= 2)
                && line_text(ls[i]) == t {
            let i = choose|i: int|
                0 <= i < ls.len() && (is_alarming((#[trigger] ls[i]).edge_type) || ls[i].weight
                    >= 2) && line_text(ls[i]) == t;
            if i < most.len() {
                assert(most[i] == ls[i]);
            }
        }
        if forall|i: int|
            0 <= i < ls.len() ==> is_alarming((#[trigger] ls[i]).edge_type) || ls[i].weight >= 2 {
            assert forall|i: int| 0 <= i < most.len() implies is_alarming(
                (#[trigger] most[i]).edge_type,
            ) || most[i].weight >= 2 by {
                assert(most[i] == ls[i]);
            }
        }
        if line_alarms(ls).len() == 0 {
            assert forall|i: int| 0 <= i < ls.len() implies !is_alarming(
                (#[trigger] ls[i]).edge_type,
            ) && ls[i].weight < 2 by {
                if i < most.len() {
                    assert(most[i] == ls[i]);
                }
            }
        }
        if forall|i: int|
            0 <= i < ls.len() ==> !is_alarming((#[trigger] ls[i]).edge_type) && ls[i].weight < 2 {
            assert forall|i: int| 0 <= i < most.len() implies !is_alarming(
                (#[trigger] most[i]).edge_type,
            ) && most[i].weight < 2 by {
                assert(most[i] == ls[i]);
            }
        }
    }
}

/// An event escalates where it is no earthquake, or one of magnitude six or more; one without a
/// magnitude counts as zero.
pub proof fn law_quake_alarms(q: QuakeModel)
    ensures
        quake_alarm(q) is Some <==> q.event_type != "earthquake"@ || (q.mag is Some
            && q.mag->0.rank() >= 0x4018000000000000),
{
}

/// What is escalated of a feed: the alarms of its events, in their order, and nothing else.
pub proof fn law_quake_alarms_are_exact(qs: Seq<QuakeModel>, t: Seq<char>)
    ensures
        quake_alarms(qs).contains(t) <==> exists|i: int|
            0 <= i < qs.len() && quake_alarm(#[trigger] qs[i]) == Some(t),
    decreases qs.len(),
{
    if qs.len() > 0 {
        let most = qs.drop_last();
        law_quake_alarms_are_exact(most, t);
        if let Some(x) = quake_alarm(qs.last()) {
            lemma_push_has(quake_alarms(most), x, t);
        }
        assert(qs[qs.len() - 1] == qs.last());
        if quake_alarms(most).contains(t) {
            let i = choose|i: int| 0 <= i < most.len() && quake_alarm(#[trigger] most[i]) == Some(t);
            assert(qs[i] == most[i]);
        }
        if exists|i: int| 0 <= i < qs.len() && quake_alarm(#[trigger] qs[i]) == Some(t) {
            let i = choose|i: int| 0 <= i < qs.len() && quake_alarm(#[trigger] qs[i]) == Some(t);
            if i < most.len() {
                assert(most[i] == qs[i]);
            }
        }
    }
}

/// What is counted: an entity counts as new that was not seen before the cycle began, a mention as
/// awaiting review by its status, a relation as typed unless it is a co-mention.
pub proof fn law_counts_by_one(
    es: Seq<EntityModel>,
    e: EntityModel,
    cs: Seq<CandidateModel>,
    c: CandidateModel,
    ds: Seq<EdgeModel>,
    d: EdgeModel,
    started: Seq<char>,
)
    ensures
        new_entity_count(seq![], started) == 0,
        new_entity_count(es.push(e), started) == new_entity_count(es, started) + if before(
            e.first_seen,
            started,
        ) {
            0int
        } else {
            1
        },
        review_count(seq![]) == 0,
        review_count(cs.push(c)) == review_count(cs) + if c.status == "pending_review"@ {
            1int
        } else {
            0
        },
        typed_count(seq![]) == 0,
        typed_count(ds.push(d)) == typed_count(ds) + if d.edge_type == "mentioned_with"@ {
            0int
        } else {
            1
        },
        valid_edges(ds.push(d)) == if d.invalid_at is None {
            valid_edges(ds).push(d)
        } else {
            valid_edges(ds)
        },
        valid_edges(seq![]) == Seq::<EdgeModel>::empty(),
{
    assert(es.push(e).drop_last() =~= es);
    assert(cs.push(c).drop_last() =~= cs);
    assert(ds.push(d).drop_last() =~= ds);
}

// ---------------------------------------------------------------------------------------------
// The brief

proof fn lemma_occurrences(list: Seq<Seq<char>>, x: Seq<char>)
    ensures
        occurrences(list, x) > 0 <==> list.contains(x),
        occurrences(list, x) <= list.len(),
    decreases list.len(),
{
    if list.len() > 0 {
        let most = list.drop_last();
        lemma_occurrences(most, x);
        assert(list =~= most.push(list.last()));
        lemma_push_has(most, list.last(), x);
    }
}

/// Texts by how often they occur: each text once, with the number of its occurrences, the most
/// frequent first; what does not occur is not there.
pub proof fn law_groups_count_occurrences(list: Seq<Seq<char>>, x: Seq<char>)
    ensures
        ({
            let r = grouped(list);
            &&& forall|i: int|
                0 <= i < r.len() ==> (#[trigger] r[i]).1 == occurrences(list, r[i].0)
                    && list.contains(r[i].0)
            &&& forall|i: int, j: int|
                0 <= i < j < r.len() ==> (#[trigger] r[i]).1 >= (#[trigger] r[j]).1
            &&& list.contains(x) ==> exists|i: int| 0 <= i < r.len() && (#[trigger] r[i]).0 == x
            &&& occurrences(list.push(x), x) == occurrences(list, x) + 1
        }),
{
    let names = sorted_texts(list);
    let keys = Seq::new(names.len(), |i: int| occurrences(list, names[i]) as int);
    let order = ranking(keys);
    let r = grouped(list);
    crate::order::lemma_ranking(keys);
    assert forall|i: int| 0 <= i < r.len() implies (#[trigger] r[i]).1 == occurrences(
        list,
        r[i].0,
    ) && list.contains(r[i].0) by {
        assert(names.contains(names[order[i]]));
        crate::laws::resolution::lemma_sorted_has(list, names[order[i]]);
    }
    assert forall|i: int, j: int| 0 <= i < j < r.len() implies (#[trigger] r[i]).1 >= (
    #[trigger] r[j]).1 by {
        assert(crate::order::ranks_before(keys, order[i], order[j]));
    }
    if list.contains(x) {
        crate::laws::resolution::lemma_sorted_has(list, x);
        let k = choose|k: int| 0 <= k < names.len() && names[k] == x;
        assert(order.contains(k));
        let m = choose|m: int| 0 <= m < order.len() && order[m] == k;
        assert(r[m].0 == x);
    }
    assert(list.push(x).drop_last() =~= list);
}

/// The most corroborated entities: at most twenty-five, those with the most items that speak for
/// them first, and none without any.
pub proof fn law_top_entities(w: WorldModel)
    ensures
        ({
            let r = top_entities(w);
            &&& r.len() <= 25
            &&& forall|i: int|
                0 <= i < r.len() ==> 0 <= #[trigger] r[i] < w.entities.len() && corroborating(
                    w.candidates,
                    w.entities[r[i]].id,
                ).len() > 0
            &&& forall|i: int, j: int|
                0 <= i < j < r.len() ==> corroborating(
                    w.candidates,
                    w.entities[#[trigger] r[i]].id,
                ).len() >= corroborating(w.candidates, w.entities[#[trigger] r[j]].id).len()
            &&& forall|p: int|
                0 <= p < w.entities.len() && corroborating(
                    w.candidates,
                    (#[trigger] w.entities[p]).id,
                ).len() > 0 && !r.contains(p) ==> r.len() == 25 && forall|i: int|
                    0 <= i < 25 ==> corroborating(
                        w.candidates,
                        w.entities[#[trigger] r[i]].id,
                    ).len() >= corroborating(w.candidates, w.entities[p].id).len()
        }),
{
    let n = w.entities.len() as int;
    let fits = |i: int| corroboration(w, w.entities[i]) > 0;
    let key = |i: int| corroboration(w, w.entities[i]);
    let at = places(n, fits);
    lemma_ranked(n, fits, key);
    assert(Seq::new(at.len(), |k: int| key(at[k])) =~= Seq::new(
        at.len(),
        |k: int| corroboration(w, w.entities[at[k]]),
    ));
    let all = arranged(at, ranking(Seq::new(at.len(), |k: int| corroboration(w, w.entities[at[k]]))));
    assert(lists_highest_first(all, n, fits, key));
    let r = top_entities(w);
    assert forall|i: int| 0 <= i < r.len() implies #[trigger] r[i] == all[i] by {}
    assert forall|i: int| 0 <= i < r.len() implies 0 <= #[trigger] r[i] < w.entities.len()
        && corroborating(w.candidates, w.entities[r[i]].id).len() > 0 by {
        assert(fits(all[i]));
    }
    assert forall|i: int, j: int| 0 <= i < j < r.len() implies corroborating(
        w.candidates,
        w.entities[#[trigger] r[i]].id,
    ).len() >= corroborating(w.candidates, w.entities[#[trigger] r[j]].id).len() by {
        assert(key(all[i]) >= key(all[j]));
    }
    assert forall|p: int|
        0 <= p < w.entities.len() && corroborating(
            w.candidates,
            (#[trigger] w.entities[p]).id,
        ).len() > 0 && !r.contains(p) implies r.len() == 25 && forall|i: int|
        0 <= i < 25 ==> corroborating(w.candidates, w.entities[#[trigger] r[i]].id).len()
            >= corroborating(w.candidates, w.entities[p].id).len() by {
        assert(fits(p));
        let k = choose|k: int| 0 <= k < all.len() && all[k] == p;
        if k < r.len() {
            assert(r[k] == p);
        }
        assert forall|i: int| 0 <= i < 25 implies corroborating(
            w.candidates,
            w.entities[#[trigger] r[i]].id,
        ).len() >= corroborating(w.candidates, w.entities[p].id).len() by {
            assert(key(all[i]) >= key(all[k]));
        }
    }
}

/// The number of ingested items is that of the rows that were added.
pub proof fn law_ingest_counts_new_items(
    w: WorldModel,
    items: Seq<RawModel>,
    stamps: Seq<StampModel>,
)
    requires
        items.len() <= usize::MAX,
    ensures
        ({
            let (after, n) = all_ingested(w, items, stamps);
            &&& n == after.source_items.len() - w.source_items.len()
            &&& n <= items.len()
            &&& forall|i: int|
                0 <= i < w.source_items.len() ==> #[trigger] after.source_items[i]
                    == w.source_items[i]
            &&& after == (WorldModel { source_items: after.source_items, ..w })
        }),
    decreases items.len(),
{
    if items.len() > 0 {
        law_ingest_counts_new_items(w, items.drop_last(), stamps);
    }
}

} // verus!
