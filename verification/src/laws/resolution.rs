//! Resolution: what happens to mentions, items, entities and human decisions.

use vstd::prelude::*;

use crate::block::candidates_of;
use crate::double::Double;
use crate::extract::MentionModel;
use crate::matcher::Weights;
use crate::models::{listed, printed_list, CandidateModel, EdgeModel, EntityModel, SourceModel};
use crate::resolve::{
    after_mention, after_mentions, all_resolved, best_of, candidate_match, cooc_of,
    corroboration_of, item_resolved, lemma_first_best, linked, linked_neighbours, merged,
    merged_aliases, merged_entities, observed, one_more, parted, united_list, vetoes, ItemState,
    ItemTrace, ResolveStats,
};
use crate::text::before;
use crate::world::{StampModel, WorldModel};

verus! {

// ---------------------------------------------------------------------------------------------
// The best candidate

/// Where several candidates score highest, the mention is compared with the first of them.
pub proof fn law_first_of_equals_is_compared(
    w: WorldModel,
    mention: Seq<char>,
    mention_type: Option<Seq<char>>,
    ids: Seq<Seq<char>>,
    weights: Weights,
    now: Seq<char>,
    k: int,
)
    requires
        0 <= k < candidates_of(w, mention).len(),
        forall|j: int|
            #![trigger candidates_of(w, mention)[j]]
            0 <= j < candidates_of(w, mention).len() ==> ({
                let other = candidate_match(
                    w,
                    candidates_of(w, mention)[j],
                    mention,
                    mention_type,
                    ids,
                    weights,
                    now,
                ).total;
                let own = candidate_match(
                    w,
                    candidates_of(w, mention)[k],
                    mention,
                    mention_type,
                    ids,
                    weights,
                    now,
                ).total;
                other <= own && (j < k ==> other < own)
            }),
    ensures
        best_of(w, mention, mention_type, ids, weights, now) matches Some((e, _)) && e
            == candidates_of(w, mention)[k],
{
    let es = candidates_of(w, mention);
    let ms = Seq::new(
        es.len(),
        |i: int| candidate_match(w, es[i], mention, mention_type, ids, weights, now),
    );
    lemma_first_best(ms);
    let best = crate::resolve::first_best(ms);
    assert(ms[k].total <= ms[best].total);
    assert(ms[best] == candidate_match(w, es[best], mention, mention_type, ids, weights, now));
    assert(ms[k] == candidate_match(w, es[k], mention, mention_type, ids, weights, now));
    if k < best {
        assert(ms[k].total < ms[best].total);
    }
}

/// Which entity a mention is compared with: one of those that share a key with it, none of which
/// scores higher. Its score is reported as it is, unless it would merge and another candidate that
/// comes within three points was declared distinct from it by a human; then it is half a point
/// short of a merge.
pub proof fn law_best_candidate_scores_highest(
    w: WorldModel,
    mention: Seq<char>,
    mention_type: Option<Seq<char>>,
    ids: Seq<Seq<char>>,
    weights: Weights,
    now: Seq<char>,
)
    ensures
        ({
            let es = candidates_of(w, mention);
            match best_of(w, mention, mention_type, ids, weights, now) {
                None => es.len() == 0,
                Some((e, m)) => {
                    let own = candidate_match(w, e, mention, mention_type, ids, weights, now);
                    let veto = exists|j: int|
                        0 <= j < es.len() && parted(w.decorrelations, e.id, (#[trigger] es[j]).id)
                            && own.total - candidate_match(
                            w,
                            es[j],
                            mention,
                            mention_type,
                            ids,
                            weights,
                            now,
                        ).total < 3_000_000;
                    &&& es.contains(e)
                    &&& forall|j: int|
                        0 <= j < es.len() ==> candidate_match(
                            w,
                            #[trigger] es[j],
                            mention,
                            mention_type,
                            ids,
                            weights,
                            now,
                        ).total <= own.total
                    &&& m != own ==> own.total >= weights.upper && veto && m.total
                        == (weights.upper - 500_000) as i64
                    &&& w.decorrelations.len() == 0 ==> m == own
                    &&& own.total >= weights.upper && (exists|j: int|
                        0 <= j < es.len() && es[j] != e && parted(
                            w.decorrelations,
                            e.id,
                            (#[trigger] es[j]).id,
                        ) && own.total - candidate_match(
                            w,
                            es[j],
                            mention,
                            mention_type,
                            ids,
                            weights,
                            now,
                        ).total < 3_000_000) ==> m.total == (weights.upper - 500_000) as i64
                },
            }
        }),
{
    let es = candidates_of(w, mention);
    let ms = Seq::new(
        es.len(),
        |i: int| candidate_match(w, es[i], mention, mention_type, ids, weights, now),
    );
    if es.len() > 0 {
        lemma_first_best(ms);
        let best = crate::resolve::first_best(ms);
        let e = es[best];
        let own = candidate_match(w, e, mention, mention_type, ids, weights, now);
        assert(es.contains(e));
        assert(own == ms[best]);
        assert forall|j: int| 0 <= j < es.len() implies candidate_match(
            w,
            #[trigger] es[j],
            mention,
            mention_type,
            ids,
            weights,
            now,
        ).total <= own.total by {
            assert(ms[j].total <= ms[best].total);
        }
        if exists|j: int| vetoes(w.decorrelations, es, ms, best, j) {
            let j = choose|j: int| vetoes(w.decorrelations, es, ms, best, j);
            assert(parted(w.decorrelations, e.id, es[j].id));
            assert(ms[j] == candidate_match(
                w,
                es[j],
                mention,
                mention_type,
                ids,
                weights,
                now,
            ));
        }
        if own.total >= weights.upper && (exists|j: int|
            0 <= j < es.len() && es[j] != e && parted(
                w.decorrelations,
                e.id,
                (#[trigger] es[j]).id,
            ) && own.total - candidate_match(
                w,
                es[j],
                mention,
                mention_type,
                ids,
                weights,
                now,
            ).total < 3_000_000) {
            let j = choose|j: int|
                0 <= j < es.len() && es[j] != e && parted(
                    w.decorrelations,
                    e.id,
                    (#[trigger] es[j]).id,
                ) && own.total - candidate_match(
                    w,
                    es[j],
                    mention,
                    mention_type,
                    ids,
                    weights,
                    now,
                ).total < 3_000_000;
            assert(vetoes(w.decorrelations, es, ms, best, j));
        }
    }
}

// ---------------------------------------------------------------------------------------------
// Mentions

/// The world has one candidate row more, that of the mention, and the other rows as they were.
pub open spec fn one_row_more(
    w: WorldModel,
    after: WorldModel,
    item_id: Seq<char>,
    m: MentionModel,
    t: StampModel,
) -> bool {
    let row = after.candidates.last();
    &&& after.candidates.len() == w.candidates.len() + 1
    &&& forall|i: int|
        0 <= i < w.candidates.len() ==> #[trigger] after.candidates[i] == w.candidates[i]
    &&& row.id == t.id
    &&& row.created_at == t.now
    &&& row.source_item_id == item_id
    &&& row.mention_text == m.text
    &&& row.mention_type_guess == m.label
    &&& after.source_items == w.source_items
    &&& after.edges == w.edges
    &&& after.decorrelations == w.decorrelations
    &&& after.decisions == w.decisions
    &&& after.geo == w.geo
}

/// What becomes of a mention, by the score of its best candidate.
///
/// From the upper threshold on it is merged: no entity is added, the candidate lives on with what
/// it had, and only the times of its liveness change. From the lower threshold on but below the
/// upper one it waits for review: the entities are as they were, and its row names the best
/// candidate. Below both thresholds, or where there is no candidate, it becomes an entity of its
/// own, with its text as the name.
pub proof fn law_mention_outcome(
    st: ItemState,
    item_id: Seq<char>,
    m: MentionModel,
    weights: Weights,
    stamps: (StampModel, StampModel),
)
    ensures
        ({
            let (w, s) = (st.world, stamps.0);
            let after = after_mention(st, item_id, m, weights, stamps);
            let row = after.world.candidates.last();
            let best = best_of(w, m.text, m.label, st.ids, weights, s.now);
            let (found, score) = best->0;
            let total = score.total;
            let made = best is None || (total < weights.lower && total < weights.upper);
            &&& one_row_more(w, after.world, item_id, m, stamps.1)
            &&& best is None ==> row.match_score is None && row.feature_scores is None
            &&& best is Some ==> row.match_score == Some(total) && row.feature_scores == Some(
                score,
            )
            &&& best is Some && total >= weights.upper ==> {
                let e = found;
                &&& row.status == "auto_merged"@
                &&& row.best_match_entity_id == Some(e.id)
                &&& after.world.keys == w.keys
                &&& after.world.entities.len() == w.entities.len()
                &&& forall|i: int|
                    #![trigger after.world.entities[i]]
                    0 <= i < w.entities.len() ==> if w.entities[i].id == e.id {
                        let t = after.world.entities[i];
                        &&& t.is_live
                        &&& t.last_seen == s.now
                        &&& t.last_source_update_time == Some(s.now)
                        &&& t.expiry_time == Some(s.expiry)
                        &&& t.id == e.id
                        &&& t.canonical_name == w.entities[i].canonical_name
                        &&& t.aliases == w.entities[i].aliases
                        &&& t.entity_type == w.entities[i].entity_type
                        &&& t.confidence == w.entities[i].confidence
                        &&& t.first_seen == w.entities[i].first_seen
                    } else {
                        after.world.entities[i] == w.entities[i]
                    }
                &&& after.open == st.open
                &&& after.ids.contains(e.id)
                &&& after.stats == (ResolveStats {
                    auto_merged: one_more(st.stats.auto_merged),
                    ..st.stats
                })
            }
            &&& best is Some && weights.lower <= total < weights.upper ==> {
                &&& row.status == "pending_review"@
                &&& row.best_match_entity_id == Some(found.id)
                &&& after.world.entities == w.entities
                &&& after.world.keys == w.keys
                &&& after.open
                &&& after.ids.contains(found.id)
                &&& after.stats == (ResolveStats {
                    pending_review: one_more(st.stats.pending_review),
                    ..st.stats
                })
            }
            &&& made ==> {
                let e = after.world.entities.last();
                &&& row.status == "needs_llm"@
                &&& row.best_match_entity_id == Some(s.id)
                &&& after.world.entities.len() == w.entities.len() + 1
                &&& forall|i: int|
                    0 <= i < w.entities.len() ==> #[trigger] after.world.entities[i]
                        == w.entities[i]
                &&& e.id == s.id
                &&& e.canonical_name == m.text
                &&& e.entity_type == (if m.label is Some {
                    m.label->0
                } else {
                    "unknown"@
                })
                &&& e.is_live
                &&& e.aliases == "[]"@
                &&& e.first_seen == s.now && e.last_seen == s.now
                &&& e.expiry_time == Some(s.expiry)
                &&& e.last_source_update_time == Some(s.now)
                &&& after.open
                &&& after.ids.contains(s.id)
                &&& after.stats == (ResolveStats {
                    new_entities: one_more(st.stats.new_entities),
                    ..st.stats
                })
            }
            &&& after.world.entities.len() > w.entities.len() ==> made
            &&& row.status == "auto_merged"@ ==> best is Some && total >= weights.upper
            &&& forall|id: Seq<char>|
                #[trigger] after.ids.contains(id) <==> st.ids.contains(id)
                    || row.best_match_entity_id == Some(id)
        }),
{
    let s = stamps.0;
    let after = after_mention(st, item_id, m, weights, stamps);
    let step = crate::resolve::mention_step(st.world, m, st.ids, weights, s, st.stats);
    reveal_strlit("auto_merged");
    reveal_strlit("pending_review");
    reveal_strlit("needs_llm");
    assert("auto_merged"@.len() != "pending_review"@.len());
    assert("auto_merged"@.len() != "needs_llm"@.len());
    assert forall|id: Seq<char>|
        #[trigger] after.ids.contains(id) <==> st.ids.contains(id) || step.entity_id == id by {
        crate::matcher::lemma_push_contains(st.ids, step.entity_id, id);
    }
}

/// How sure one is of an entity that was made from a mention: as sure as the extractor was, but
/// not less than 0.3 and not more than 0.9.
pub proof fn law_made_confidence_is_bounded(
    st: ItemState,
    item_id: Seq<char>,
    m: MentionModel,
    weights: Weights,
    stamps: (StampModel, StampModel),
)
    requires
        best_of(st.world, m.text, m.label, st.ids, weights, stamps.0.now) is None,
    ensures
        ({
            let c = after_mention(
                st,
                item_id,
                m,
                weights,
                stamps,
            ).world.entities.last().confidence;
            let floor = Double { bits: 0x3fd3333333333333 };
            let ceiling = Double { bits: 0x3feccccccccccccd };
            &&& floor.rank() <= m.score.rank() <= ceiling.rank() ==> c
                == m.score
            &&& m.score.rank() < floor.rank() ==> c == floor
            &&& m.score.rank() > ceiling.rank() ==> c == ceiling
        }),
{
}

// ---------------------------------------------------------------------------------------------
// Merging

/// One of the names that a merge has to carry over to the kept entity as an alias.
pub open spec fn is_carried(keep: EntityModel, absorb: EntityModel, name: Seq<char>) -> bool {
    ||| listed(keep.aliases).contains(name)
    ||| listed(absorb.aliases).contains(name)
    ||| name == absorb.canonical_name && name != keep.canonical_name
}

proof fn lemma_united_list(list: Seq<Seq<char>>, more: Seq<Seq<char>>, x: Seq<char>)
    ensures
        united_list(list, more).contains(x) <==> list.contains(x) || more.contains(x),
        list.no_duplicates() ==> united_list(list, more).no_duplicates(),
    decreases more.len(),
{
    if more.len() > 0 {
        let most = more.drop_last();
        lemma_united_list(list, most, x);
        assert(more =~= most.push(more.last()));
        crate::matcher::lemma_push_contains(most, more.last(), x);
        crate::matcher::lemma_push_contains(united_list(list, most), more.last(), x);
    } else {
        assert(!more.contains(x));
    }
}

/// After a merge the aliases are those of the kept entity, those of the absorbed one and the
/// absorbed canonical name where it differs from the kept one, and no others.
pub proof fn law_merge_carries_every_name(
    keep: EntityModel,
    absorb: EntityModel,
    name: Seq<char>,
)
    ensures
        merged_aliases(keep, absorb).contains(name) <==> is_carried(keep, absorb, name),
        listed(keep.aliases).no_duplicates() ==> merged_aliases(keep, absorb).no_duplicates(),
{
    let both = united_list(listed(keep.aliases), listed(absorb.aliases));
    lemma_united_list(listed(keep.aliases), listed(absorb.aliases), name);
    lemma_united_list(listed(keep.aliases), listed(absorb.aliases), absorb.canonical_name);
    crate::matcher::lemma_push_contains(both, absorb.canonical_name, name);
}

/// After a merge a mention of any name of either entity meets the kept one.
pub proof fn law_merged_names_are_found(
    w: WorldModel,
    keep: EntityModel,
    absorb: EntityModel,
    now: Seq<char>,
    name: Seq<char>,
)
    requires
        is_carried(keep, absorb, name) || name == keep.canonical_name,
        crate::matcher::normalized(name).len() > 0,
    ensures
        crate::block::hit_ids(
            merged(w, keep, absorb, now).keys,
            crate::block::name_keys(name),
        ).contains(keep.id),
{
    law_merge_carries_every_name(keep, absorb, name);
    crate::block::law_indexed_names_are_found(
        w.keys,
        keep.id,
        keep.canonical_name,
        merged_aliases(keep, absorb),
        name,
    );
}

/// What a merge does to the rows. The absorbed entity is gone, the kept one has the higher of the
/// two confidences, the new aliases and the time of the merge, and every other entity is as it
/// was. Where a relation or a mention had the absorbed entity it has the kept one, and is
/// otherwise as it was.
pub proof fn law_merge_is_exact(
    w: WorldModel,
    keep: EntityModel,
    absorb: EntityModel,
    now: Seq<char>,
    e: EntityModel,
)
    requires
        keep.id != absorb.id,
    ensures
        ({
            let after = merged(w, keep, absorb, now);
            &&& e.id != keep.id && e.id != absorb.id ==> (after.entities.contains(e)
                <==> w.entities.contains(e))
            &&& e.id == keep.id && after.entities.contains(e) ==> {
                &&& e.aliases == printed_list(merged_aliases(keep, absorb))
                &&& e.last_seen == now
                &&& e.confidence.rank() >= keep.confidence.rank()
                &&& e.confidence.rank() >= absorb.confidence.rank()
                &&& e.confidence == keep.confidence || e.confidence == absorb.confidence
                &&& exists|i: int|
                    0 <= i < w.entities.len() && (#[trigger] w.entities[i]).id == keep.id
                        && w.entities[i].canonical_name == e.canonical_name
                        && w.entities[i].entity_type == e.entity_type && w.entities[i].first_seen
                        == e.first_seen && w.entities[i].is_live == e.is_live
            }
            &&& w.entities.contains(keep) ==> exists|i: int|
                0 <= i < after.entities.len() && (#[trigger] after.entities[i]).id == keep.id
                    && after.entities[i].canonical_name == keep.canonical_name
            &&& after.entities.len() <= w.entities.len()
            &&& w.entities.contains(absorb) ==> after.entities.len() < w.entities.len()
            &&& after.edges.len() == w.edges.len()
            &&& forall|i: int|
                #![trigger after.edges[i]]
                0 <= i < w.edges.len() ==> {
                    let (x, y) = (w.edges[i], after.edges[i]);
                    &&& y.from_id == if x.from_id == absorb.id {
                        keep.id
                    } else {
                        x.from_id
                    }
                    &&& y.to_id == if x.to_id == absorb.id {
                        keep.id
                    } else {
                        x.to_id
                    }
                    &&& y == (EdgeModel { from_id: y.from_id, to_id: y.to_id, ..x })
                }
            &&& after.candidates.len() == w.candidates.len()
            &&& forall|i: int|
                #![trigger after.candidates[i]]
                0 <= i < w.candidates.len() ==> {
                    let (x, y) = (w.candidates[i], after.candidates[i]);
                    &&& x.best_match_entity_id == Some(absorb.id) ==> y.best_match_entity_id
                        == Some(keep.id)
                    &&& x.best_match_entity_id != Some(absorb.id) ==> y == x
                    &&& y == (CandidateModel { best_match_entity_id: y.best_match_entity_id, ..x })
                }
            &&& after.source_items == w.source_items
            &&& after.decisions == w.decisions
            &&& after.geo == w.geo
            &&& after.decorrelations == w.decorrelations
        }),
{
    lemma_merged_rows(w.entities, keep, absorb, now, e);
    if w.entities.contains(keep) {
        lemma_merged_keeps(w.entities, keep, absorb, now);
    }
}

proof fn lemma_merged_keeps(
    es: Seq<EntityModel>,
    keep: EntityModel,
    absorb: EntityModel,
    now: Seq<char>,
)
    requires
        keep.id != absorb.id,
        es.contains(keep),
    ensures
        exists|i: int|
            0 <= i < merged_entities(es, keep, absorb, now).len() && (#[trigger] merged_entities(
                es,
                keep,
                absorb,
                now,
            )[i]).id == keep.id && merged_entities(es, keep, absorb, now)[i].canonical_name
                == keep.canonical_name,
    decreases es.len(),
{
    let rest = es.drop_first();
    let all = merged_entities(es, keep, absorb, now);
    let tail = merged_entities(rest, keep, absorb, now);
    if es[0] == keep {
        assert(all[0].id == keep.id);
    } else {
        let k = choose|k: int| 0 <= k < es.len() && es[k] == keep;
        assert(rest[k - 1] == keep);
        lemma_merged_keeps(rest, keep, absorb, now);
        let i = choose|i: int|
            0 <= i < tail.len() && (#[trigger] tail[i]).id == keep.id && tail[i].canonical_name
                == keep.canonical_name;
        if es[0].id == absorb.id {
            assert(all[i] == tail[i]);
        } else {
            assert(all[i + 1] == tail[i]);
        }
    }
}

proof fn lemma_merged_rows(
    es: Seq<EntityModel>,
    keep: EntityModel,
    absorb: EntityModel,
    now: Seq<char>,
    e: EntityModel,
)
    requires
        keep.id != absorb.id,
    ensures
        ({
            let after = merged_entities(es, keep, absorb, now);
            &&& e.id != keep.id && e.id != absorb.id ==> (after.contains(e) <==> es.contains(e))
            &&& e.id == keep.id && after.contains(e) ==> {
                &&& e.aliases == printed_list(merged_aliases(keep, absorb))
                &&& e.last_seen == now
                &&& e.confidence == keep.confidence.spec_max(absorb.confidence)
                &&& exists|i: int|
                    0 <= i < es.len() && (#[trigger] es[i]).id == keep.id && es[i].canonical_name
                        == e.canonical_name && es[i].entity_type == e.entity_type
                        && es[i].first_seen == e.first_seen && es[i].is_live == e.is_live
            }
            &&& after.len() <= es.len()
            &&& es.contains(absorb) ==> after.len() < es.len()
        }),
    decreases es.len(),
{
    let after = merged_entities(es, keep, absorb, now);
    if es.len() > 0 {
        let rest = es.drop_first();
        let tail = merged_entities(rest, keep, absorb, now);
        lemma_merged_rows(rest, keep, absorb, now, e);
        assert(es =~= seq![es[0]] + rest);
        if es.contains(e) && es[0] != e {
            let k = choose|k: int| 0 <= k < es.len() && es[k] == e;
            assert(rest[k - 1] == e);
        }
        if rest.contains(e) {
            let k = choose|k: int| 0 <= k < rest.len() && rest[k] == e;
            assert(es[k + 1] == e);
        }
        if es.contains(absorb) && es[0] != absorb {
            let k = choose|k: int| 0 <= k < es.len() && es[k] == absorb;
            assert(rest[k - 1] == absorb);
        }
        if es[0].id == absorb.id {
            assert(after == tail);
        } else {
            assert(after =~= seq![after[0]] + tail);
            if after.contains(e) && after[0] != e {
                let k = choose|k: int| 0 <= k < after.len() && after[k] == e;
                assert(tail[k - 1] == e);
            }
            if tail.contains(e) {
                let k = choose|k: int| 0 <= k < tail.len() && tail[k] == e;
                assert(after[k + 1] == e);
            }
            if es[0].id != keep.id {
                assert(after[0] == es[0]);
            }
        }
        if e.id == keep.id && after.contains(e) {
            if tail.contains(e) {
                let i = choose|i: int|
                    0 <= i < rest.len() && (#[trigger] rest[i]).id == keep.id
                        && rest[i].canonical_name == e.canonical_name && rest[i].entity_type
                        == e.entity_type && rest[i].first_seen == e.first_seen && rest[i].is_live
                        == e.is_live;
                assert(es[i + 1] == rest[i]);
            } else {
                assert(es[0].id == keep.id);
            }
        }
    }
}

// ---------------------------------------------------------------------------------------------
// Items

/// Whether the rows from `n` on hold one that was not merged.
pub open spec fn left_open(cs: Seq<CandidateModel>, n: int) -> bool {
    exists|i: int| n <= i < cs.len() && (#[trigger] cs[i]).status != "auto_merged"@
}

/// Whether the rows from `n` on hold one that was resolved to the entity.
pub open spec fn resolved_to(cs: Seq<CandidateModel>, n: int, id: Seq<char>) -> bool {
    exists|i: int| n <= i < cs.len() && (#[trigger] cs[i]).best_match_entity_id == Some(id)
}

/// Every mention of an item gets a row of its own, in order. Something is left open exactly where
/// a mention was not merged, and the entities that the mentions were resolved to are exactly those
/// of the rows, each once.
pub proof fn law_every_mention_has_a_row(
    st: ItemState,
    item_id: Seq<char>,
    ms: Seq<MentionModel>,
    weights: Weights,
    stamps: Seq<(StampModel, StampModel)>,
)
    ensures
        ({
            let after = after_mentions(st, item_id, ms, weights, stamps);
            let (old_rows, cs) = (st.world.candidates, after.world.candidates);
            let n = old_rows.len() as int;
            &&& cs.len() == n + ms.len()
            &&& forall|i: int| 0 <= i < n ==> #[trigger] cs[i] == old_rows[i]
            &&& forall|i: int|
                #![trigger cs[n + i]]
                #![trigger ms[i]]
                0 <= i < ms.len() ==> cs[n + i].mention_text == ms[i].text && cs[n
                    + i].source_item_id == item_id && cs[n + i].mention_type_guess == ms[i].label
                    && cs[n + i].best_match_entity_id is Some
            &&& after.open <==> st.open || left_open(cs, n)
            &&& forall|id: Seq<char>|
                #[trigger] after.ids.contains(id) <==> st.ids.contains(id) || resolved_to(cs, n, id)
            &&& st.ids.no_duplicates() ==> after.ids.no_duplicates()
        }),
    decreases ms.len(),
{
    let after = after_mentions(st, item_id, ms, weights, stamps);
    let old_rows = st.world.candidates;
    let n = old_rows.len() as int;
    let cs = after.world.candidates;
    if ms.len() > 0 {
        let most = ms.drop_last();
        let k = ms.len() - 1;
        law_every_mention_has_a_row(st, item_id, most, weights, stamps);
        let mid = after_mentions(st, item_id, most, weights, stamps);
        let cm = mid.world.candidates;
        law_mention_outcome(mid, item_id, ms.last(), weights, stamps[k]);
        assert(cs.len() == cm.len() + 1);
        let row = cs.last();
        assert(row == cs[n + k]);
        assert forall|i: int| 0 <= i < n implies #[trigger] cs[i] == old_rows[i] by {
            assert(cs[i] == cm[i]);
        }
        assert forall|i: int|
            #![trigger cs[n + i]]
            #![trigger ms[i]]
            0 <= i < ms.len() implies cs[n + i].mention_text == ms[i].text && cs[n
            + i].source_item_id == item_id && cs[n + i].mention_type_guess == ms[i].label && cs[n
            + i].best_match_entity_id is Some by {
            if i < k {
                assert(most[i] == ms[i]);
                assert(cs[n + i] == cm[n + i]);
            }
        }
        assert(left_open(cs, n) <==> left_open(cm, n) || row.status != "auto_merged"@) by {
            if left_open(cm, n) {
                let i = choose|i: int|
                    n <= i < cm.len() && (#[trigger] cm[i]).status != "auto_merged"@;
                assert(cs[i] == cm[i]);
            }
            if left_open(cs, n) && row.status == "auto_merged"@ {
                let i = choose|i: int|
                    n <= i < cs.len() && (#[trigger] cs[i]).status != "auto_merged"@;
                assert(cs[i] == cm[i]);
            }
        }
        lemma_open_by_status(mid, item_id, ms.last(), weights, stamps[k]);
        assert forall|id: Seq<char>|
            #[trigger] after.ids.contains(id) <==> st.ids.contains(id) || resolved_to(
                cs,
                n,
                id,
            ) by {
            if resolved_to(cm, n, id) {
                let i = choose|i: int|
                    n <= i < cm.len() && (#[trigger] cm[i]).best_match_entity_id == Some(id);
                assert(cs[i] == cm[i]);
            }
            if resolved_to(cs, n, id) && row.best_match_entity_id != Some(id) {
                let i = choose|i: int|
                    n <= i < cs.len() && (#[trigger] cs[i]).best_match_entity_id == Some(id);
                assert(cs[i] == cm[i]);
            }
            assert(mid.ids.contains(id) <==> st.ids.contains(id) || resolved_to(cm, n, id));
        }
    }
}

proof fn lemma_open_by_status(
    st: ItemState,
    item_id: Seq<char>,
    m: MentionModel,
    weights: Weights,
    stamps: (StampModel, StampModel),
)
    ensures
        ({
            let after = after_mention(st, item_id, m, weights, stamps);
            &&& after.open <==> st.open || after.world.candidates.last().status != "auto_merged"@
            &&& st.ids.no_duplicates() ==> after.ids.no_duplicates()
        }),
{
    reveal_strlit("auto_merged");
    reveal_strlit("pending_review");
    reveal_strlit("needs_llm");
    assert("auto_merged"@.len() != "pending_review"@.len());
    assert("auto_merged"@.len() != "needs_llm"@.len());
}

/// An item is resolved once all of its mentions were merged, and needs a model otherwise; the
/// status of no other item changes. One more item was processed, and one more needs a model where
/// this one does.
pub proof fn law_item_status(
    w: WorldModel,
    stats: ResolveStats,
    item_id: Seq<char>,
    observed_at: Seq<char>,
    trace: ItemTrace,
    weights: Weights,
)
    ensures
        ({
            let (after, counts) = item_resolved(
                w,
                stats,
                item_id,
                observed_at,
                trace,
                weights,
            );
            let open = left_open(after.candidates, w.candidates.len() as int);
            &&& after.candidates.len() == w.candidates.len() + trace.mentions.len()
            &&& after.source_items.len() == w.source_items.len()
            &&& forall|i: int|
                #![trigger after.source_items[i]]
                0 <= i < w.source_items.len() ==> if w.source_items[i].id == item_id {
                    after.source_items[i] == (SourceModel {
                        status: if open {
                            "needs_llm"@
                        } else {
                            "resolved"@
                        },
                        ..w.source_items[i]
                    })
                } else {
                    after.source_items[i] == w.source_items[i]
                }
            &&& counts.items_processed == one_more(stats.items_processed)
            &&& counts.needs_llm == if open {
                one_more(stats.needs_llm)
            } else {
                stats.needs_llm
            }
            &&& after.decisions == w.decisions
            &&& after.decorrelations == w.decorrelations
            &&& after.geo == w.geo
        }),
{
    let begin = ItemState {
        world: w,
        ids: seq![],
        open: false,
        stats: ResolveStats { items_processed: one_more(stats.items_processed), ..stats },
    };
    law_every_mention_has_a_row(begin, item_id, trace.mentions, weights, trace.stamps);
    lemma_mentions_frame(begin, item_id, trace.mentions, weights, trace.stamps);
}

proof fn lemma_mentions_frame(
    st: ItemState,
    item_id: Seq<char>,
    ms: Seq<MentionModel>,
    weights: Weights,
    stamps: Seq<(StampModel, StampModel)>,
)
    ensures
        ({
            let after = after_mentions(st, item_id, ms, weights, stamps);
            &&& after.world.source_items == st.world.source_items
            &&& after.world.edges == st.world.edges
            &&& after.world.decisions == st.world.decisions
            &&& after.world.decorrelations == st.world.decorrelations
            &&& after.world.geo == st.world.geo
            &&& after.stats.items_processed == st.stats.items_processed
            &&& after.stats.needs_llm == st.stats.needs_llm
        }),
    decreases ms.len(),
{
    if ms.len() > 0 {
        lemma_mentions_frame(st, item_id, ms.drop_last(), weights, stamps);
    }
}

/// The counts of a run say what it did: each mention counts as merged, as waiting for review or as
/// a new entity, and the new entities are as many as were added.
pub proof fn law_counts_add_up(
    st: ItemState,
    item_id: Seq<char>,
    ms: Seq<MentionModel>,
    weights: Weights,
    stamps: Seq<(StampModel, StampModel)>,
)
    requires
        st.stats.auto_merged + ms.len() <= usize::MAX,
        st.stats.new_entities + ms.len() <= usize::MAX,
        st.stats.pending_review + ms.len() <= usize::MAX,
    ensures
        ({
            let after = after_mentions(st, item_id, ms, weights, stamps);
            let (a, b) = (after.stats, st.stats);
            &&& (a.auto_merged - b.auto_merged) + (a.new_entities - b.new_entities) + (
            a.pending_review - b.pending_review) == ms.len()
            &&& a.new_entities - b.new_entities == after.world.entities.len()
                - st.world.entities.len()
            &&& a.auto_merged >= b.auto_merged
            &&& a.pending_review >= b.pending_review
            &&& a.new_entities >= b.new_entities
        }),
    decreases ms.len(),
{
    if ms.len() > 0 {
        let most = ms.drop_last();
        law_counts_add_up(st, item_id, most, weights, stamps);
        let mid = after_mentions(st, item_id, most, weights, stamps);
        law_mention_outcome(mid, item_id, ms.last(), weights, stamps[ms.len() - 1]);
    }
}

proof fn lemma_text_added(list: Seq<Seq<char>>, x: Seq<char>, y: Seq<char>)
    ensures
        crate::order::text_added(list, x).contains(y) <==> list.contains(y) || x == y,
    decreases list.len(),
{
    if list.len() == 0 {
        assert(seq![x][0] == x);
        assert(!list.contains(y));
    } else {
        let most = list.drop_last();
        assert(list =~= most.push(list.last()));
        lemma_text_added(most, x, y);
        crate::matcher::lemma_push_contains(most, list.last(), y);
        crate::matcher::lemma_push_contains(list, x, y);
        crate::matcher::lemma_push_contains(
            crate::order::text_added(most, x),
            list.last(),
            y,
        );
    }
}

/// Sorted texts are the same texts.
pub proof fn lemma_sorted_has(s: Seq<Seq<char>>, y: Seq<char>)
    ensures
        crate::order::sorted_texts(s).contains(y) <==> s.contains(y),
    decreases s.len(),
{
    if s.len() > 0 {
        let most = s.drop_last();
        lemma_sorted_has(most, y);
        lemma_text_added(crate::order::sorted_texts(most), s.last(), y);
        assert(s =~= most.push(s.last()));
        crate::matcher::lemma_push_contains(most, s.last(), y);
    }
}

/// The edge at a position says that the two entities were mentioned together.
pub open spec fn together(es: Seq<EdgeModel>, a: Seq<char>, b: Seq<char>) -> bool {
    exists|i: int|
        0 <= i < es.len() && (#[trigger] es[i]).edge_type == "mentioned_with"@ && ((es[i].from_id
            == a && es[i].to_id == b) || (es[i].from_id == b && es[i].to_id == a))
}

proof fn lemma_together_stays(
    es: Seq<EdgeModel>,
    a: Seq<char>,
    b: Seq<char>,
    edge_type: Seq<char>,
    item_id: Seq<char>,
    observed_at: Seq<char>,
    s: StampModel,
    x: Seq<char>,
    y: Seq<char>,
)
    ensures
        together(es, x, y) ==> together(
            linked(es, a, b, edge_type, item_id, observed_at, s),
            x,
            y,
        ),
        a != b && edge_type == "mentioned_with"@ ==> together(
            linked(es, a, b, edge_type, item_id, observed_at, s),
            a,
            b,
        ),
{
    let after = linked(es, a, b, edge_type, item_id, observed_at, s);
    if together(es, x, y) {
        let i = choose|i: int|
            0 <= i < es.len() && (#[trigger] es[i]).edge_type == "mentioned_with"@ && ((
            es[i].from_id == x && es[i].to_id == y) || (es[i].from_id == y && es[i].to_id == x));
        crate::resolve::law_history_is_kept(
            es,
            a,
            b,
            edge_type,
            item_id,
            observed_at,
            s,
            i,
        );
        assert(after[i].edge_type == "mentioned_with"@);
    }
    if a != b && edge_type == "mentioned_with"@ {
        crate::resolve::law_valid_time_is_earliest(
            es,
            a,
            b,
            edge_type,
            item_id,
            observed_at,
            s,
        );
        let at = crate::resolve::stated_at(es, a, b, edge_type);
        assert(after[at].edge_type == "mentioned_with"@);
    }
}

proof fn lemma_neighbours_linked(
    es: Seq<EdgeModel>,
    ids: Seq<Seq<char>>,
    n: int,
    item_id: Seq<char>,
    observed_at: Seq<char>,
    stamps: Seq<StampModel>,
    k: int,
)
    requires
        0 <= k < n,
        ids[k] != ids[k + 1],
    ensures
        together(
            linked_neighbours(es, ids, n, item_id, observed_at, stamps),
            ids[k],
            ids[k + 1],
        ),
    decreases n,
{
    let before = linked_neighbours(es, ids, n - 1, item_id, observed_at, stamps);
    if k < n - 1 {
        lemma_neighbours_linked(es, ids, n - 1, item_id, observed_at, stamps, k);
    }
    lemma_together_stays(
        before,
        ids[n - 1],
        ids[n],
        "mentioned_with"@,
        item_id,
        observed_at,
        stamps[n - 1],
        ids[k],
        ids[k + 1],
    );
}

/// The texts stand in order, each once.
pub open spec fn in_order(s: Seq<Seq<char>>) -> bool {
    forall|i: int, j: int| 0 <= i < j < s.len() ==> before(#[trigger] s[i], #[trigger] s[j])
}

proof fn lemma_text_added_in_order(list: Seq<Seq<char>>, x: Seq<char>)
    requires
        in_order(list),
    ensures
        in_order(crate::order::text_added(list, x)),
    decreases list.len(),
{
    let after = crate::order::text_added(list, x);
    if list.len() == 0 || list.last() == x {
    } else if before(list.last(), x) {
        let n = list.len() - 1;
        assert forall|i: int, j: int| 0 <= i < j < after.len() implies before(
            #[trigger] after[i],
            #[trigger] after[j],
        ) by {
            if j > n && i < n {
                assert(before(list[i], list[n]));
                crate::text::lemma_before_transitive(list[i], list[n], x);
            }
        }
    } else {
        let most = list.drop_last();
        let last = list.last();
        assert forall|i: int, j: int| 0 <= i < j < most.len() implies before(
            #[trigger] most[i],
            #[trigger] most[j],
        ) by {
            assert(most[i] == list[i] && most[j] == list[j]);
        }
        lemma_text_added_in_order(most, x);
        crate::text::lemma_before_total(last, x);
        let inner = crate::order::text_added(most, x);
        assert forall|i: int, j: int| 0 <= i < j < after.len() implies before(
            #[trigger] after[i],
            #[trigger] after[j],
        ) by {
            if j < inner.len() {
                assert(before(inner[i], inner[j]));
            } else {
                assert(after[i] == inner[i]);
                assert(inner.contains(inner[i]));
                lemma_text_added(most, x, inner[i]);
                if inner[i] != x {
                    let k = choose|k: int| 0 <= k < most.len() && most[k] == inner[i];
                    assert(before(list[k], list[list.len() - 1]));
                }
            }
        }
    }
}

proof fn lemma_sorted_in_order(s: Seq<Seq<char>>)
    ensures
        in_order(crate::order::sorted_texts(s)),
    decreases s.len(),
{
    if s.len() > 0 {
        lemma_sorted_in_order(s.drop_last());
        lemma_text_added_in_order(crate::order::sorted_texts(s.drop_last()), s.last());
    }
}

/// The entities that the mentions of an item were resolved to are linked as mentioned together,
/// each with the next one by id.
pub proof fn law_mentioned_together_are_linked(
    w: WorldModel,
    stats: ResolveStats,
    item_id: Seq<char>,
    observed_at: Seq<char>,
    trace: ItemTrace,
    weights: Weights,
    a: Seq<char>,
    b: Seq<char>,
)
    requires
        before(a, b),
        ({
            let cs = item_resolved(
                w,
                stats,
                item_id,
                observed_at,
                trace,
                weights,
            ).0.candidates;
            let n = w.candidates.len() as int;
            &&& resolved_to(cs, n, a)
            &&& resolved_to(cs, n, b)
            &&& forall|id: Seq<char>| #[trigger]
                resolved_to(cs, n, id) ==> !(before(a, id) && before(id, b))
        }),
    ensures
        together(
            item_resolved(w, stats, item_id, observed_at, trace, weights).0.edges,
            a,
            b,
        ),
{
    let begin = ItemState {
        world: w,
        ids: seq![],
        open: false,
        stats: ResolveStats { items_processed: one_more(stats.items_processed), ..stats },
    };
    let st = after_mentions(begin, item_id, trace.mentions, weights, trace.stamps);
    let cs = st.world.candidates;
    let n = w.candidates.len() as int;
    law_every_mention_has_a_row(begin, item_id, trace.mentions, weights, trace.stamps);
    let ids = crate::order::sorted_texts(st.ids);
    lemma_sorted_has(st.ids, a);
    lemma_sorted_has(st.ids, b);
    lemma_sorted_in_order(st.ids);
    assert(st.ids.contains(a) && st.ids.contains(b));
    let i = choose|i: int| 0 <= i < ids.len() && ids[i] == a;
    let j = choose|j: int| 0 <= j < ids.len() && ids[j] == b;
    crate::text::lemma_before_irreflexive(a);
    if j <= i {
        if j < i {
            assert(before(ids[j], ids[i]));
            crate::text::lemma_before_transitive(a, b, a);
        }
        assert(false);
    }
    if i + 1 < j {
        let c = ids[i + 1];
        assert(before(ids[i], ids[i + 1]) && before(ids[i + 1], ids[j]));
        lemma_sorted_has(st.ids, c);
        assert(ids.contains(c));
        assert(st.ids.contains(c));
        assert(resolved_to(cs, n, c));
        assert(false);
    }
    lemma_neighbours_linked(
        st.world.edges,
        ids,
        ids.len() - 1,
        item_id,
        observed_at,
        trace.links,
        i,
    );
}

/// After a run every item that was taken up is resolved or needs a model, and every other item is as
/// it was; as many items were processed as were taken up.
pub proof fn law_run_leaves_nothing_pending(
    w: WorldModel,
    items: Seq<SourceModel>,
    traces: Seq<ItemTrace>,
    weights: Weights,
    k: int,
)
    requires
        0 <= k < w.source_items.len(),
        items.len() <= usize::MAX,
    ensures
        ({
            let (after, stats) = all_resolved(w, items, traces, weights);
            let taken = exists|i: int|
                0 <= i < items.len() && (#[trigger] items[i]).id == w.source_items[k].id;
            &&& after.source_items.len() == w.source_items.len()
            &&& taken ==> after.source_items[k].status == "resolved"@
                || after.source_items[k].status == "needs_llm"@
            &&& !taken ==> after.source_items[k] == w.source_items[k]
            &&& after.source_items[k] == (SourceModel {
                status: after.source_items[k].status,
                ..w.source_items[k]
            })
            &&& stats.items_processed == items.len()
        }),
    decreases items.len(),
{
    if items.len() > 0 {
        let most = items.drop_last();
        let n = items.len() - 1;
        law_run_leaves_nothing_pending(w, most, traces, weights, k);
        let (w1, stats) = all_resolved(w, most, traces, weights);
        law_item_status(
            w1,
            stats,
            items.last().id,
            observed(items.last()),
            traces[n],
            weights,
        );
        assert(items[n] == items.last());
        assert forall|i: int| 0 <= i < n implies #[trigger] items[i] == most[i] by {}
        let (after, _) = all_resolved(w, items, traces, weights);
        assert(after.source_items[k].id == w.source_items[k].id);
        if exists|i: int| 0 <= i < most.len() && (#[trigger] most[i]).id == w.source_items[k].id {
            let i = choose|i: int|
                0 <= i < most.len() && (#[trigger] most[i]).id == w.source_items[k].id;
            assert(items[i] == most[i]);
        }
    }
}

/// An item was observed when it was published, or when it was ingested where that is not known.
pub proof fn law_observation_time(item: SourceModel)
    ensures
        item.published_at is Some ==> observed(item) == item.published_at->0,
        item.published_at is None ==> observed(item) == item.ingested_at,
{
}

/// A stored entity is scored with its own names and type, the links that it has to the entities
/// around, the items that corroborate it, and whether it was seen in the last thirty days.
pub proof fn law_candidate_is_scored_in_its_context(
    w: WorldModel,
    e: EntityModel,
    mention: Seq<char>,
    mention_type: Option<Seq<char>>,
    ids: Seq<Seq<char>>,
    weights: Weights,
    now: Seq<char>,
)
    ensures
        ({
            let f = candidate_match(w, e, mention, mention_type, ids, weights, now).features;
            &&& f.cooc == cooc_of(w.edges, e.id, ids)
            &&& f.corroboration == corroboration_of(w.candidates, e.id)
            &&& f.recent <==> crate::resolve::elapsed_seconds(e.last_seen, now) is Some
                && crate::resolve::elapsed_seconds(e.last_seen, now)->0 < 30 * 24 * 60 * 60
            &&& f.alias_exact <==> crate::laws::matching::goes_by(
                mention,
                e.canonical_name,
                listed(e.aliases),
            )
            &&& crate::laws::matching::types_conflict(mention_type, e.entity_type)
                <==> f.type_agree == 0
        }),
{
    let context = (
        cooc_of(w.edges, e.id, ids),
        corroboration_of(w.candidates, e.id),
        crate::resolve::recent_at(e.last_seen, now),
    );
    crate::laws::matching::law_exact_match_is_by_name(
        mention,
        mention_type,
        e.canonical_name,
        listed(e.aliases),
        e.entity_type,
        context,
    );
    if mention_type is Some {
        crate::laws::matching::law_types_agree(mention_type->0, e.entity_type);
    }
}

/// A stamp expires thirty days after it was drawn.
pub proof fn law_stamps_expire_in_thirty_days(s: StampModel)
    requires
        crate::world::is_stamp(s),
        crate::world::has_common_year(s.expiry),
    ensures
        crate::resolve::elapsed_seconds(s.now, s.expiry) == Some(2_592_000i64),
        before(s.now, s.expiry),
{
}

} // verus!
