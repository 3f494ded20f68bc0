//! Intake, expiry, human decisions and proposals: what each of them changes.

use vstd::prelude::*;

use crate::block::{hit_ids, name_keys};
use crate::double::Double;
use crate::hash::fingerprint;
use crate::matcher::{normalized, Weights};
use crate::models::{listed, printed_list, CandidateModel, EntityModel, RawModel, SourceModel};
use crate::resolve::{
    best_of, candidate_of, decided, expired, fresh_aliases, has_pair, ingested, limited, ordered,
    parted, pending, proposed_aliases, stale_count, upserted, with_parted, DecisionModel,
    ResolveErrorKind,
};
use crate::text::before;
use crate::world::{entity_of, DecorrelationModel, StampModel, WorldModel};

verus! {

// ---------------------------------------------------------------------------------------------
// Intake

/// An item that is offered: it is stored as pending, with what it holds and the fingerprint of its
/// reference and its text, unless an item of that fingerprint is stored already; nothing else
/// changes.
pub proof fn law_item_is_stored_once(w: WorldModel, item: RawModel, s: StampModel)
    ensures
        ({
            let after = ingested(w, item, s);
            let hash = fingerprint(item.source_ref + "|"@ + item.text);
            let known = exists|i: int|
                0 <= i < w.source_items.len() && (#[trigger] w.source_items[i]).content_hash
                    == hash;
            let row = after.source_items.last();
            &&& known ==> after == w
            &&& !known ==> {
                &&& after.source_items.len() == w.source_items.len() + 1
                &&& forall|i: int|
                    0 <= i < w.source_items.len() ==> #[trigger] after.source_items[i]
                        == w.source_items[i]
                &&& row.id == s.id
                &&& row.source_type == item.source_type
                &&& row.source_ref == item.source_ref
                &&& row.title == item.title
                &&& row.raw_text == item.text
                &&& row.license_class == item.license_class
                &&& row.published_at == item.published_at
                &&& row.content_hash == hash
                &&& row.ingested_at == s.now
                &&& row.status == "pending"@
                &&& after == (WorldModel { source_items: after.source_items, ..w })
            }
        }),
{
}

/// The pending items are those with that status, each once for each row, and in their order.
pub proof fn law_pending_items(items: Seq<SourceModel>, item: SourceModel)
    ensures
        pending(items).contains(item) <==> items.contains(item) && item.status == "pending"@,
        pending(items).len() <= items.len(),
        (forall|i: int| 0 <= i < items.len() ==> (#[trigger] items[i]).status == "pending"@)
            ==> pending(items) == items,
    decreases items.len(),
{
    if items.len() > 0 {
        let most = items.drop_last();
        law_pending_items(most, item);
        assert(items =~= most.push(items.last()));
        crate::laws::lists::lemma_push_has(most, items.last(), item);
        crate::laws::lists::lemma_push_has(pending(most), items.last(), item);
        if forall|i: int| 0 <= i < items.len() ==> (#[trigger] items[i]).status == "pending"@ {
            assert forall|i: int| 0 <= i < most.len() implies (#[trigger] most[i]).status
                == "pending"@ by {
                assert(most[i] == items[i]);
            }
            assert(items[items.len() - 1].status == "pending"@);
        }
    }
}

/// A limit takes the first of a list, as many as it says; a negative one takes all.
pub proof fn law_limit_takes_the_first<T>(s: Seq<T>, limit: i64)
    ensures
        limit < 0 ==> limited(s, limit) == s,
        limit >= 0 ==> limited(s, limit).len() == if limit < s.len() {
            limit as int
        } else {
            s.len() as int
        },
        forall|i: int| 0 <= i < limited(s, limit).len() ==> #[trigger] limited(s, limit)[i] == s[i],
{
}

// ---------------------------------------------------------------------------------------------
// Expiry

/// How many of the entities are live.
pub open spec fn live_count(es: Seq<EntityModel>) -> int
    decreases es.len(),
{
    if es.len() == 0 {
        0
    } else {
        live_count(es.drop_last()) + if es.last().is_live {
            1int
        } else {
            0
        }
    }
}

/// Expiry ends the life of exactly the live entities whose expiry has passed, changes nothing else
/// of them and nothing of the others, and says how many it ended.
pub proof fn law_expiry_ends_what_is_past(es: Seq<EntityModel>, now: Seq<char>)
    ensures
        ({
            let after = expired(es, now);
            &&& after.len() == es.len()
            &&& forall|i: int|
                #![trigger after[i]]
                0 <= i < es.len() ==> {
                    let past = es[i].expiry_time is Some && before(es[i].expiry_time->0, now);
                    &&& after[i].is_live <==> es[i].is_live && !past
                    &&& after[i] == (EntityModel { is_live: after[i].is_live, ..es[i] })
                }
            &&& stale_count(es, now) == live_count(es) - live_count(after)
        }),
    decreases es.len(),
{
    if es.len() > 0 {
        law_expiry_ends_what_is_past(es.drop_last(), now);
        assert(expired(es, now).drop_last() =~= expired(es.drop_last(), now));
    }
}

// ---------------------------------------------------------------------------------------------
// Decisions

/// The decision on the candidate is on record, with who took it and why, and only the row of that
/// candidate has changed, to the given status and entity.
pub open spec fn is_on_record(
    w: WorldModel,
    after: WorldModel,
    d: DecisionModel,
    t: StampModel,
    status: Seq<char>,
    entity: Option<Seq<char>>,
) -> bool {
    let r = after.decisions.last();
    &&& after.decisions.len() == w.decisions.len() + 1
    &&& forall|i: int| 0 <= i < w.decisions.len() ==> #[trigger] after.decisions[i] == w.decisions[i]
    &&& r.id == t.id
    &&& r.candidate_id == d.candidate_id
    &&& r.decision == d.decision
    &&& r.actor == d.actor
    &&& r.reason == d.reason
    &&& r.decided_at == t.now
    &&& after.candidates.len() == w.candidates.len()
    &&& forall|i: int|
        #![trigger after.candidates[i]]
        0 <= i < w.candidates.len() ==> if w.candidates[i].id == d.candidate_id {
            after.candidates[i] == (CandidateModel {
                status,
                best_match_entity_id: if entity is Some {
                    entity
                } else {
                    w.candidates[i].best_match_entity_id
                },
                ..w.candidates[i]
            })
        } else {
            after.candidates[i] == w.candidates[i]
        }
    &&& after.edges == w.edges
    &&& after.source_items == w.source_items
    &&& after.geo == w.geo
}

/// The world has one entity more, of that name and type.
pub open spec fn one_entity_more(
    w: WorldModel,
    after: WorldModel,
    name: Seq<char>,
    label: Option<Seq<char>>,
    s: StampModel,
) -> bool {
    let e = after.entities.last();
    &&& after.entities.len() == w.entities.len() + 1
    &&& forall|i: int| 0 <= i < w.entities.len() ==> #[trigger] after.entities[i] == w.entities[i]
    &&& e.id == s.id
    &&& e.canonical_name == name
    &&& e.entity_type == (if label is Some {
        label->0
    } else {
        "unknown"@
    })
    &&& e.is_live
    &&& e.confidence == (Double { bits: 0x3fe6666666666666 })
    &&& e.first_seen == s.now && e.last_seen == s.now && e.expiry_time == Some(s.expiry)
}

proof fn lemma_decision_words()
    ensures
        "confirm"@ != "reject"@,
        "confirm"@ != "new"@,
        "reject"@ != "new"@,
{
    reveal_strlit("confirm");
    reveal_strlit("reject");
    reveal_strlit("new");
    assert("confirm"@.len() == 7 && "reject"@.len() == 6 && "new"@.len() == 3);
}

proof fn lemma_candidate_of(cs: Seq<CandidateModel>, id: Seq<char>)
    ensures
        candidate_of(cs, id) is Some <==> exists|i: int|
            0 <= i < cs.len() && (#[trigger] cs[i]).id == id,
        candidate_of(cs, id) matches Some(c) ==> c.id == id && cs.contains(c),
    decreases cs.len(),
{
    if cs.len() > 0 && cs[0].id != id {
        let rest = cs.drop_first();
        lemma_candidate_of(rest, id);
        if exists|i: int| 0 <= i < rest.len() && (#[trigger] rest[i]).id == id {
            let i = choose|i: int| 0 <= i < rest.len() && (#[trigger] rest[i]).id == id;
            assert(cs[i + 1].id == id);
        }
        if exists|i: int| 0 <= i < cs.len() && (#[trigger] cs[i]).id == id {
            let i = choose|i: int| 0 <= i < cs.len() && (#[trigger] cs[i]).id == id;
            assert(rest[i - 1].id == id);
        }
        if let Some(c) = candidate_of(rest, id) {
            let k = choose|k: int| 0 <= k < rest.len() && rest[k] == c;
            assert(cs[k + 1] == c);
        }
    } else if cs.len() > 0 {
        assert(cs.contains(cs[0]));
    }
}

/// When a decision is refused: of a candidate that is not there, with a word that is none of the
/// three, or a confirmation of what is not there to be confirmed.
pub proof fn law_decision_is_refused(
    w: WorldModel,
    d: DecisionModel,
    s: StampModel,
    p: StampModel,
    t: StampModel,
)
    ensures
        ({
            let r = decided(w, d, s, p, t);
            let c = candidate_of(w.candidates, d.candidate_id);
            let known = exists|i: int|
                0 <= i < w.candidates.len() && (#[trigger] w.candidates[i]).id == d.candidate_id;
            &&& !known <==> r == Err::<(WorldModel, Seq<char>), ResolveErrorKind>(
                ResolveErrorKind::CandidateNotFound,
            )
            &&& known && d.decision != "confirm"@ && d.decision != "reject"@ && d.decision
                != "new"@ ==> r == Err::<(WorldModel, Seq<char>), ResolveErrorKind>(
                ResolveErrorKind::UnknownDecision,
            )
            &&& known && d.decision == "new"@ ==> r is Ok
            &&& known && d.decision == "confirm"@ ==> (r is Ok <==> c->0.best_match_entity_id
                is Some && exists|i: int|
                0 <= i < w.entities.len() && (#[trigger] w.entities[i]).id
                    == c->0.best_match_entity_id->0)
            &&& known && d.decision == "reject"@ ==> (r is Ok <==> c->0.best_match_entity_id
                != Some(s.id))
        }),
{
    lemma_decision_words();
    lemma_candidate_of(w.candidates, d.candidate_id);
    if let Some(c) = candidate_of(w.candidates, d.candidate_id) {
        if let Some(target) = c.best_match_entity_id {
            crate::laws::lists::lemma_entity_of(w.entities, target);
        }
    }
}

/// What a confirmation does: the entity that was proposed lives on and has been seen now, and the
/// mention becomes one of its names; no entity is added and none is parted.
pub proof fn law_confirmation_teaches_the_name(
    w: WorldModel,
    d: DecisionModel,
    s: StampModel,
    p: StampModel,
    t: StampModel,
)
    requires
        d.decision == "confirm"@,
        decided(w, d, s, p, t) is Ok,
    ensures
        ({
            let (after, note) = decided(w, d, s, p, t)->Ok_0;
            let c = candidate_of(w.candidates, d.candidate_id)->0;
            let target = c.best_match_entity_id->0;
            let e = entity_of(w.entities, target)->0;
            &&& is_on_record(w, after, d, t, "confirmed"@, None)
            &&& after.decorrelations == w.decorrelations
            &&& after.entities.len() == w.entities.len()
            &&& forall|i: int|
                #![trigger after.entities[i]]
                0 <= i < w.entities.len() ==> if w.entities[i].id == target {
                    let x = after.entities[i];
                    &&& x.is_live
                    &&& x.last_seen == s.now
                    &&& x.expiry_time == Some(s.expiry)
                    &&& x.canonical_name == w.entities[i].canonical_name
                    &&& c.mention_text == e.canonical_name || listed(e.aliases).contains(
                        c.mention_text,
                    ) ==> x.aliases == w.entities[i].aliases
                    &&& c.mention_text != e.canonical_name && !listed(e.aliases).contains(
                        c.mention_text,
                    ) ==> x.aliases == printed_list(listed(e.aliases).push(c.mention_text))
                } else {
                    after.entities[i] == w.entities[i]
                }
            &&& c.mention_text != e.canonical_name && !listed(e.aliases).contains(c.mention_text)
                && normalized(c.mention_text).len() > 0 ==> hit_ids(
                after.keys,
                name_keys(c.mention_text),
            ).contains(target)
        }),
{
    lemma_decision_words();
    let c = candidate_of(w.candidates, d.candidate_id)->0;
    let target = c.best_match_entity_id->0;
    crate::laws::lists::lemma_entity_of(w.entities, target);
    let e = entity_of(w.entities, target)->0;
    let more = listed(e.aliases).push(c.mention_text);
    if c.mention_text != e.canonical_name && !listed(e.aliases).contains(c.mention_text)
        && normalized(c.mention_text).len() > 0 {
        crate::laws::lists::lemma_push_has(listed(e.aliases), c.mention_text, c.mention_text);
        crate::block::law_indexed_names_are_found(
            w.keys,
            e.id,
            e.canonical_name,
            more,
            c.mention_text,
        );
    }
}

/// What a rejection or the word "new" does: the mention becomes an entity of its own, and its row
/// names that one. A rejection parts it for good from the entity that was proposed; the word "new"
/// parts nothing.
pub proof fn law_rejection_splits_off(
    w: WorldModel,
    d: DecisionModel,
    s: StampModel,
    p: StampModel,
    t: StampModel,
)
    requires
        d.decision == "reject"@ || d.decision == "new"@,
        decided(w, d, s, p, t) is Ok,
    ensures
        ({
            let (after, note) = decided(w, d, s, p, t)->Ok_0;
            let c = candidate_of(w.candidates, d.candidate_id)->0;
            &&& one_entity_more(w, after, c.mention_text, c.mention_type_guess, s)
            &&& d.decision == "reject"@ ==> is_on_record(
                w,
                after,
                d,
                t,
                "rejected"@,
                Some(s.id),
            )
            &&& d.decision == "new"@ ==> is_on_record(w, after, d, t, "new"@, Some(s.id))
            &&& d.decision == "new"@ || c.best_match_entity_id is None ==> after.decorrelations
                == w.decorrelations
            &&& d.decision == "reject"@ && c.best_match_entity_id is Some ==> parted(
                after.decorrelations,
                s.id,
                c.best_match_entity_id->0,
            ) && after.decorrelations == with_parted(
                w.decorrelations,
                s.id,
                c.best_match_entity_id->0,
                d.reason,
                p,
            )
        }),
{
    lemma_decision_words();
    let c = candidate_of(w.candidates, d.candidate_id)->0;
    if d.decision == "reject"@ && c.best_match_entity_id is Some {
        law_parting_is_recorded(
            w.decorrelations,
            s.id,
            c.best_match_entity_id->0,
            d.reason,
            p,
            s.id,
            s.id,
        );
    }
}

/// Two entities that are declared distinct are parted from then on, whichever is named first, for
/// the given reason; no other pair is parted by it, and none that was is not any more.
pub proof fn law_parting_is_recorded(
    ds: Seq<DecorrelationModel>,
    a: Seq<char>,
    b: Seq<char>,
    reason: Option<Seq<char>>,
    s: StampModel,
    x: Seq<char>,
    y: Seq<char>,
)
    ensures
        ({
            let after = with_parted(ds, a, b, reason, s);
            &&& parted(after, a, b)
            &&& parted(after, b, a)
            &&& parted(ds, x, y) ==> parted(after, x, y)
            &&& parted(after, x, y) ==> parted(ds, x, y) || (x == a && y == b) || (x == b && y == a)
            &&& after.len() <= ds.len() + 1
            &&& exists|i: int|
                0 <= i < after.len() && (#[trigger] after[i]).reason == reason
                    && after[i].decided_at == s.now && crate::resolve::row_parts(after[i], a, b)
        }),
{
    let after = with_parted(ds, a, b, reason, s);
    let q = ordered(a, b);
    let k: int = if has_pair(ds, q) {
        choose|k: int| 0 <= k < ds.len() && crate::resolve::is_pair(#[trigger] ds[k], q)
    } else {
        ds.len() as int
    };
    assert(crate::resolve::row_parts(after[k], a, b) && crate::resolve::row_parts(after[k], b, a));
    if parted(ds, x, y) {
        let i = choose|i: int|
            0 <= i < ds.len() && crate::resolve::row_parts(#[trigger] ds[i], x, y);
        assert(crate::resolve::row_parts(after[i], x, y));
    }
    if parted(after, x, y) {
        let i = choose|i: int|
            0 <= i < after.len() && crate::resolve::row_parts(#[trigger] after[i], x, y);
        if i < ds.len() {
            assert(crate::resolve::row_parts(ds[i], x, y));
        }
    }
}

// ---------------------------------------------------------------------------------------------
// Proposals

/// What a proposal of a model does. Where its best candidate reaches the upper threshold, that
/// entity has both names of the proposal from then on, the higher confidence, the proposed type if
/// its own was unknown, and has been seen now. Otherwise there is one entity more, under the
/// proposed name, with the mention as an alias where it differs.
pub proof fn law_proposal_is_folded_in(
    w: WorldModel,
    mention: Seq<char>,
    name: Seq<char>,
    entity_type: Seq<char>,
    confidence: Double,
    weights: Weights,
    s: StampModel,
)
    ensures
        ({
            let (after, id) = upserted(w, mention, name, entity_type, confidence, weights, s);
            let best = best_of(w, name, Some(entity_type), seq![], weights, s.now);
            let (e, score) = best->0;
            let matched = best is Some && score.total >= weights.upper;
            &&& after == (WorldModel { entities: after.entities, keys: after.keys, ..w })
            &&& matched ==> {
                &&& id == e.id
                &&& after.entities.len() == w.entities.len()
                &&& forall|i: int|
                    #![trigger after.entities[i]]
                    0 <= i < w.entities.len() ==> if w.entities[i].id == e.id {
                        let x = after.entities[i];
                        &&& x.is_live
                        &&& x.last_seen == s.now
                        &&& x.expiry_time == Some(s.expiry)
                        &&& x.id == e.id
                        &&& x.canonical_name == w.entities[i].canonical_name
                        &&& x.first_seen == w.entities[i].first_seen
                        &&& w.entities[i].entity_type == "unknown"@ ==> x.entity_type
                            == entity_type
                        &&& w.entities[i].entity_type != "unknown"@ ==> x.entity_type
                            == w.entities[i].entity_type
                        &&& x.confidence.rank() >= e.confidence.rank()
                        &&& x.confidence.rank() >= confidence.rank()
                        &&& x.confidence == e.confidence || x.confidence == confidence
                        &&& x.aliases == printed_list(proposed_aliases(e, mention, name))
                    } else {
                        after.entities[i] == w.entities[i]
                    }
            }
            &&& !matched ==> {
                let x = after.entities.last();
                &&& id == s.id
                &&& after.entities.len() == w.entities.len() + 1
                &&& forall|i: int|
                    0 <= i < w.entities.len() ==> #[trigger] after.entities[i] == w.entities[i]
                &&& x.id == s.id
                &&& x.canonical_name == name
                &&& x.entity_type == entity_type
                &&& x.confidence == confidence
                &&& x.is_live
                &&& x.last_seen == s.now
                &&& mention == name ==> x.aliases == printed_list(seq![])
                &&& mention != name ==> x.aliases == printed_list(seq![mention])
            }
        }),
{
}

/// The aliases after a proposal was folded in: those the entity had, and the two names of the
/// proposal as far as they differ from the canonical one; no others.
pub proof fn law_proposal_names_are_kept(
    e: EntityModel,
    mention: Seq<char>,
    name: Seq<char>,
    x: Seq<char>,
)
    ensures
        proposed_aliases(e, mention, name).contains(x) <==> listed(e.aliases).contains(x) || (x
            != e.canonical_name && (x == mention || x == name)),
        listed(e.aliases).no_duplicates() ==> proposed_aliases(e, mention, name).no_duplicates(),
{
    let a = listed(e.aliases);
    let b = if !a.contains(mention) && mention != e.canonical_name {
        a.push(mention)
    } else {
        a
    };
    crate::laws::lists::lemma_push_has(a, mention, x);
    crate::laws::lists::lemma_push_has(a, mention, name);
    crate::laws::lists::lemma_push_has(b, name, x);
}

/// A mention of a name of a proposal meets the entity that it was folded into or made of.
pub proof fn law_proposed_names_are_found(
    w: WorldModel,
    mention: Seq<char>,
    name: Seq<char>,
    entity_type: Seq<char>,
    confidence: Double,
    weights: Weights,
    s: StampModel,
    x: Seq<char>,
)
    requires
        x == mention || x == name,
        normalized(x).len() > 0,
    ensures
        ({
            let (after, id) = upserted(w, mention, name, entity_type, confidence, weights, s);
            hit_ids(after.keys, name_keys(x)).contains(id)
        }),
{
    let (after, id) = upserted(w, mention, name, entity_type, confidence, weights, s);
    match crate::resolve::proposal_match(w, name, entity_type, weights, s.now) {
        Some(e) => {
            law_proposal_names_are_kept(e, mention, name, x);
            crate::block::law_indexed_names_are_found(
                w.keys,
                e.id,
                e.canonical_name,
                proposed_aliases(e, mention, name),
                x,
            );
        },
        None => {
            let aliases = fresh_aliases(mention, name);
            if x != name {
                assert(aliases[0] == mention);
                assert(aliases.contains(x));
            }
            crate::block::law_indexed_names_are_found(w.keys, s.id, name, aliases, x);
        },
    }
}

} // verus!
