//! Deterministic, always-on resolution, without any call of a language model.
//!
//! 1. Extract the mentions of an item.
//! 2. Block: pull the candidate entities that share a name key with the mention.
//! 3. Score each candidate with the multi-signal probabilistic matcher.
//! 4. Merge (touch the entity), review (park for a human or a model), or create.
//!
//! Every candidate row keeps its feature breakdown, so a decision can always be explained.
//! Human decorrelations are honored here too: a merge is demoted to review when the winning
//! candidate was declared distinct from another close candidate.

use vstd::prelude::*;
use vstd::string::*;

use crate::block::{
    blocked_ids, candidates_for, candidates_of, index_entity, indexed, lemma_with_ids_agrees,
};
use crate::double::Double;
use crate::extract::{ExtractError, Mention, MentionExtractor, MentionModel};
use crate::hash::{fingerprint, fingerprint_of};
use crate::laws::matching::{goes_by, types_conflict};
use crate::laws::resolution::{law_merge_carries_every_name, law_merge_is_exact};
use crate::matcher::{
    decide, decision, features_of, match_of, parts, score, Candidate, Decision, MatchModel,
    MatchScore, Ratio, Weights, TOTAL_LIMIT,
};
use crate::models::{
    is_instant, listed, print_list, printed_list, rows, CandidateModel, EdgeModel, EntityModel,
    RawItem, RawModel, SourceModel, WmEdge, WmEntity, WmExtractionCandidate, WmSourceItem,
};
use crate::order::{sort_texts, sorted_texts, text_added};
use crate::text::{
    before, list_has, opt_copy, opt_owned, opt_str, opt_view, quote, quoted, str_before, str_eq,
    views,
};
use crate::world::{
    are_stamps, entity_of, find_entity, has_common_year, is_stamp, stamp, Decorrelation,
    DecorrelationModel, ReviewDecision, ReviewModel, Stamp, StampModel, World, WorldModel,
    DEFAULT_EXPIRY_SECONDS,
};

verus! {

/// An entity seen within this many seconds counts as recent: thirty days.
pub const RECENT_SECONDS: i64 = 2_592_000;

/// A decorrelated runner-up within this score gap of the winner forces review.
pub const DECORRELATION_VETO_GAP: i64 = 3_000_000;

/// A vetoed merge is put this far below the merge threshold.
pub const VETO_MARGIN: i64 = 500_000;

// ---------------------------------------------------------------------------------------------
// Ingest

pub fn content_hash(text: &str) -> (r: String)
    ensures
        r@ == fingerprint(text@),
        r@.len() == 64,
{
    fingerprint_of(text)
}

/// What identifies an item: the fingerprint of its reference and its text.
pub open spec fn item_hash(item: RawModel) -> Seq<char> {
    fingerprint(item.source_ref + "|"@ + item.text)
}

/// An item with the given fingerprint is stored.
pub open spec fn is_known(items: Seq<SourceModel>, hash: Seq<char>) -> bool {
    exists|i: int| 0 <= i < items.len() && (#[trigger] items[i]).content_hash == hash
}

/// The row of an item that has just been ingested.
pub open spec fn item_row(item: RawModel, s: StampModel) -> SourceModel {
    SourceModel {
        id: s.id,
        source_type: item.source_type,
        source_ref: item.source_ref,
        content_hash: item_hash(item),
        title: item.title,
        raw_text: item.text,
        ingested_at: s.now,
        status: "pending"@,
        license_class: item.license_class,
        published_at: item.published_at,
    }
}

/// The world after an item was offered: a new item is stored as pending, a known one is not.
pub open spec fn ingested(w: WorldModel, item: RawModel, s: StampModel) -> WorldModel {
    if is_known(w.source_items, item_hash(item)) {
        w
    } else {
        WorldModel { source_items: w.source_items.push(item_row(item, s)), ..w }
    }
}

fn known(items: &Vec<WmSourceItem>, hash: &str) -> (r: bool)
    ensures
        r == is_known(rows(items@), hash@),
{
    let mut i: usize = 0;
    while i < items.len()
        invariant
            i <= items@.len(),
            forall|j: int| 0 <= j < i ==> (#[trigger] rows(items@)[j]).content_hash != hash@,
        decreases items.len() - i,
    {
        if str_eq(items[i].content_hash.as_str(), hash) {
            assert(rows(items@)[i as int].content_hash == hash@);
            return true;
        }
        i += 1;
    }
    false
}

/// Stores a raw item under the given stamp if it is new, by its fingerprint. Returns its id when
/// it was stored, nothing when it was already seen.
pub fn ingest_item_as(world: &mut World, item: &RawItem, s: Stamp) -> (r: Option<String>)
    ensures
        final(world)@ == ingested(old(world)@, item@, s@),
        match r {
            Some(id) => id@ == s@.id && !is_known(old(world)@.source_items, item_hash(item@)),
            None => is_known(old(world)@.source_items, item_hash(item@)),
        },
{
    let mut key = item.source_ref.clone();
    key.append("|");
    key.append(item.text.as_str());
    let hash = content_hash(key.as_str());
    if known(&world.source_items, hash.as_str()) {
        return None;
    }
    let id = s.id.clone();
    let row = WmSourceItem {
        id: s.id,
        source_type: item.source_type.clone(),
        source_ref: item.source_ref.clone(),
        content_hash: hash,
        title: opt_copy(&item.title),
        raw_text: item.text.clone(),
        ingested_at: s.now,
        status: "pending".to_owned(),
        license_class: item.license_class.clone(),
        published_at: opt_copy(&item.published_at),
    };
    let ghost rv = row@;
    world.source_items.push(row);
    assert(rows(world.source_items@) =~= old(world)@.source_items.push(rv));
    Some(id)
}

/// Stores a raw item if it is new, under a fresh id.
pub fn ingest_item(world: &mut World, item: &RawItem) -> (r: Option<String>)
    ensures
        exists|s: StampModel|
            is_stamp(s) && #[trigger] ingested(old(world)@, item@, s) == final(world)@ && match r {
                Some(id) => id@ == s.id,
                None => true,
            },
        r is None <==> is_known(old(world)@.source_items, item_hash(item@)),
{
    let s = stamp();
    let ghost sv = s@;
    let r = ingest_item_as(world, item, s);
    assert(ingested(old(world)@, item@, sv) == world@);
    r
}

/// An item is stored once: offering it again changes nothing.
pub proof fn law_ingest_once(w: WorldModel, item: RawModel, s: StampModel, t: StampModel)
    ensures
        is_known(ingested(w, item, s).source_items, item_hash(item)),
        ingested(ingested(w, item, s), item, t) == ingested(w, item, s),
{
    if !is_known(w.source_items, item_hash(item)) {
        let items = ingested(w, item, s).source_items;
        assert(items[items.len() - 1] == item_row(item, s));
        assert(items[items.len() - 1].content_hash == item_hash(item));
    }
}

// ---------------------------------------------------------------------------------------------
// Evidence from the graph

/// The whole seconds from one RFC 3339 time to another, rounded towards zero; nothing where one
/// of the texts is no such time.
pub uninterp spec fn elapsed_seconds(ts: Seq<char>, now: Seq<char>) -> Option<i64>;

/// `chrono::DateTime::parse_from_rfc3339` on both texts, and the `num_seconds` of the difference
/// of the two instants: a function of the two texts.
#[verifier::external_body]
pub(crate) fn seconds_between(ts: &str, now: &str) -> (r: Option<i64>)
    ensures
        r == elapsed_seconds(ts@, now@),
{
    let earlier = chrono::DateTime::parse_from_rfc3339(ts).ok()?;
    let later = chrono::DateTime::parse_from_rfc3339(now).ok()?;
    Some((later - earlier).num_seconds())
}

/// A time less than thirty days before `now`.
pub open spec fn recent_at(ts: Seq<char>, now: Seq<char>) -> bool {
    match elapsed_seconds(ts, now) {
        Some(s) => s < RECENT_SECONDS,
        None => false,
    }
}

fn is_recent(ts: &str, now: &str) -> (r: bool)
    ensures
        r == recent_at(ts@, now@),
{
    match seconds_between(ts, now) {
        Some(s) => s < RECENT_SECONDS,
        None => false,
    }
}

/// The edge links the entity with one of the given ones.
pub open spec fn links_to(e: EdgeModel, id: Seq<char>, ids: Seq<Seq<char>>) -> bool {
    (e.from_id == id && ids.contains(e.to_id)) || (e.to_id == id && ids.contains(e.from_id))
}

pub open spec fn link_count(es: Seq<EdgeModel>, id: Seq<char>, ids: Seq<Seq<char>>) -> int
    decreases es.len(),
{
    if es.len() == 0 {
        0
    } else {
        link_count(es.drop_last(), id, ids) + if links_to(es.last(), id, ids) {
            1int
        } else {
            0
        }
    }
}

/// The share of the given entities that the entity is linked with, at most 1: the links over
/// the number of entities.
pub open spec fn cooc_of(es: Seq<EdgeModel>, id: Seq<char>, ids: Seq<Seq<char>>) -> Ratio {
    let n = link_count(es, id, ids);
    if ids.len() == 0 {
        Ratio { num: 0, den: 1 }
    } else if n > ids.len() {
        Ratio { num: ids.len() as u128, den: ids.len() as u128 }
    } else {
        Ratio { num: n as u128, den: ids.len() as u128 }
    }
}

fn cooc_fraction(world: &World, entity_id: &str, cooc_ids: &Vec<String>) -> (r: Ratio)
    ensures
        r == cooc_of(world@.edges, entity_id@, views(cooc_ids@)),
        r.wf(),
{
    assert(views(cooc_ids@).len() == cooc_ids@.len());
    if cooc_ids.len() == 0 {
        return Ratio { num: 0, den: 1 };
    }
    let ghost es = world@.edges;
    let mut n: usize = 0;
    let mut i: usize = 0;
    assert(es.take(0) =~= seq![]);
    while i < world.edges.len()
        invariant
            i <= world.edges@.len(),
            es == rows(world.edges@),
            n <= i,
            n == link_count(es.take(i as int), entity_id@, views(cooc_ids@)),
        decreases world.edges.len() - i,
    {
        assert(es.take(i + 1).drop_last() =~= es.take(i as int));
        let e = &world.edges[i];
        if (str_eq(e.from_id.as_str(), entity_id) && list_has(cooc_ids, e.to_id.as_str())) || (
        str_eq(e.to_id.as_str(), entity_id) && list_has(cooc_ids, e.from_id.as_str())) {
            n += 1;
        }
        i += 1;
    }
    assert(es.take(i as int) =~= es);
    if n > cooc_ids.len() {
        Ratio { num: cooc_ids.len() as u128, den: cooc_ids.len() as u128 }
    } else {
        Ratio { num: n as u128, den: cooc_ids.len() as u128 }
    }
}

/// The mention was resolved to the entity.
pub open spec fn corroborates(c: CandidateModel, id: Seq<char>) -> bool {
    &&& c.best_match_entity_id == Some(id)
    &&& c.status == "auto_merged"@ || c.status == "resolved"@ || c.status == "confirmed"@
}

/// The items that hold a mention resolved to the entity, each once.
pub open spec fn corroborating(cs: Seq<CandidateModel>, id: Seq<char>) -> Seq<Seq<char>>
    decreases cs.len(),
{
    if cs.len() == 0 {
        seq![]
    } else {
        let r = corroborating(cs.drop_last(), id);
        if corroborates(cs.last(), id) && !r.contains(cs.last().source_item_id) {
            r.push(cs.last().source_item_id)
        } else {
            r
        }
    }
}

/// How many distinct items corroborate the entity, as a 32-bit number.
pub open spec fn corroboration_of(cs: Seq<CandidateModel>, id: Seq<char>) -> u32 {
    (corroborating(cs, id).len() % 0x1_0000_0000) as u32
}

fn holds(o: &Option<String>, s: &str) -> (r: bool)
    ensures
        r == (opt_view(*o) == Some(s@)),
{
    match o {
        Some(t) => str_eq(t.as_str(), s),
        None => false,
    }
}

/// The items that hold a mention resolved to the entity, each once.
pub fn corroborating_items(world: &World, entity_id: &str) -> (r: Vec<String>)
    ensures
        views(r@) == corroborating(world@.candidates, entity_id@),
{
    let ghost cs = world@.candidates;
    let mut items: Vec<String> = Vec::new();
    let mut i: usize = 0;
    assert(cs.take(0) =~= seq![]);
    assert(views(items@) =~= seq![]);
    while i < world.candidates.len()
        invariant
            i <= world.candidates@.len(),
            cs == rows(world.candidates@),
            views(items@) == corroborating(cs.take(i as int), entity_id@),
        decreases world.candidates.len() - i,
    {
        assert(cs.take(i + 1).drop_last() =~= cs.take(i as int));
        assert(cs.take(i + 1).last() == cs[i as int]);
        let c = &world.candidates[i];
        let ghost done = views(items@);
        if holds(&c.best_match_entity_id, entity_id) && (str_eq(c.status.as_str(), "auto_merged")
            || str_eq(c.status.as_str(), "resolved") || str_eq(c.status.as_str(), "confirmed"))
            && !list_has(&items, c.source_item_id.as_str()) {
            items.push(c.source_item_id.clone());
            assert(views(items@) =~= done.push(cs[i as int].source_item_id));
        }
        i += 1;
    }
    assert(cs.take(i as int) =~= cs);
    items
}

fn corroboration_count(world: &World, entity_id: &str) -> (r: u32)
    ensures
        r == corroboration_of(world@.candidates, entity_id@),
{
    let items = corroborating_items(world, entity_id);
    assert(views(items@).len() == items@.len());
    ((items.len() as u64) % 0x1_0000_0000) as u32
}

// ---------------------------------------------------------------------------------------------
// Decorrelation

/// The row names the two entities, in either order.
pub open spec fn row_parts(d: DecorrelationModel, a: Seq<char>, b: Seq<char>) -> bool {
    (d.entity_a_id == a && d.entity_b_id == b) || (d.entity_a_id == b && d.entity_b_id == a)
}

/// The two entities were declared distinct.
pub open spec fn parted(ds: Seq<DecorrelationModel>, a: Seq<char>, b: Seq<char>) -> bool {
    exists|i: int| 0 <= i < ds.len() && row_parts(#[trigger] ds[i], a, b)
}

/// The entity was declared distinct from one of the others.
pub open spec fn parted_from_any(
    ds: Seq<DecorrelationModel>,
    id: Seq<char>,
    others: Seq<Seq<char>>,
) -> bool {
    exists|i: int|
        0 <= i < ds.len() && (((#[trigger] ds[i]).entity_a_id == id && others.contains(
            ds[i].entity_b_id,
        )) || (ds[i].entity_b_id == id && others.contains(ds[i].entity_a_id)))
}

fn decorrelated_with_any(world: &World, entity_id: &str, others: &Vec<String>) -> (r: bool)
    ensures
        r == parted_from_any(world@.decorrelations, entity_id@, views(others@)),
{
    let ghost ds = world@.decorrelations;
    let mut i: usize = 0;
    while i < world.decorrelations.len()
        invariant
            i <= world.decorrelations@.len(),
            ds == rows(world.decorrelations@),
            forall|j: int|
                0 <= j < i ==> !(((#[trigger] ds[j]).entity_a_id == entity_id@ && views(
                    others@,
                ).contains(ds[j].entity_b_id)) || (ds[j].entity_b_id == entity_id@ && views(
                    others@,
                ).contains(ds[j].entity_a_id))),
        decreases world.decorrelations.len() - i,
    {
        let d = &world.decorrelations[i];
        assert(ds[i as int] == d@);
        if (str_eq(d.entity_a_id.as_str(), entity_id) && list_has(others, d.entity_b_id.as_str()))
            || (str_eq(d.entity_b_id.as_str(), entity_id) && list_has(
            others,
            d.entity_a_id.as_str(),
        )) {
            return true;
        }
        i += 1;
    }
    false
}

/// Why a request on the world is refused.
#[derive(Debug)]
pub enum ResolveError {
    /// An entity is never distinct from itself.
    SelfDecorrelation,
    /// An entity cannot be merged into itself.
    SameEntity,
    /// A human declared the two entities distinct.
    Decorrelated { keep: String, absorb: String },
    /// One of the two entities does not exist.
    MissingEntity,
    CandidateNotFound,
    /// The candidate proposes no entity that could be confirmed.
    NothingProposed,
    /// The proposed entity does not exist.
    ProposedEntityMissing,
    UnknownDecision { decision: String },
}

impl ResolveError {
    /// The message of the error.
    pub open spec fn text(self) -> Seq<char> {
        match self {
            ResolveError::SelfDecorrelation => "cannot decorrelate an entity from itself"@,
            ResolveError::SameEntity => "keep_id and absorb_id must differ"@,
            ResolveError::Decorrelated { keep, absorb } => "refusing merge: "@ + keep@ + " and "@
                + absorb@ + " were previously decorrelated by a human decision"@,
            ResolveError::MissingEntity => "both entities must exist to merge"@,
            ResolveError::CandidateNotFound => "candidate not found"@,
            ResolveError::NothingProposed => "candidate has no proposed entity to confirm"@,
            ResolveError::ProposedEntityMissing => "no rows returned by a query that expected to return at least one row"@,
            ResolveError::UnknownDecision { decision } => "unknown decision "@ + quoted(decision@)
                + " (expected confirm|reject|new)"@,
        }
    }

    pub fn message(&self) -> (r: String)
        ensures
            r@ == self.text(),
    {
        match self {
            ResolveError::SelfDecorrelation => {
                "cannot decorrelate an entity from itself".to_owned()
            },
            ResolveError::SameEntity => "keep_id and absorb_id must differ".to_owned(),
            ResolveError::Decorrelated { keep, absorb } => {
                let mut m = "refusing merge: ".to_owned();
                m.append(keep.as_str());
                m.append(" and ");
                m.append(absorb.as_str());
                m.append(" were previously decorrelated by a human decision");
                m
            },
            ResolveError::MissingEntity => "both entities must exist to merge".to_owned(),
            ResolveError::CandidateNotFound => "candidate not found".to_owned(),
            ResolveError::NothingProposed => {
                "candidate has no proposed entity to confirm".to_owned()
            },
            ResolveError::ProposedEntityMissing => {
                "no rows returned by a query that expected to return at least one row".to_owned()
            },
            ResolveError::UnknownDecision { decision } => {
                let mut m = "unknown decision ".to_owned();
                m.append(quote(decision.as_str()).as_str());
                m.append(" (expected confirm|reject|new)");
                m
            },
        }
    }
}

/// Two ids, the smaller one first.
pub open spec fn ordered(a: Seq<char>, b: Seq<char>) -> (Seq<char>, Seq<char>) {
    if before(a, b) {
        (a, b)
    } else {
        (b, a)
    }
}

/// The row is that of the pair, which is in order.
pub open spec fn is_pair(d: DecorrelationModel, p: (Seq<char>, Seq<char>)) -> bool {
    d.entity_a_id == p.0 && d.entity_b_id == p.1
}

/// The pair has a row.
pub open spec fn has_pair(ds: Seq<DecorrelationModel>, p: (Seq<char>, Seq<char>)) -> bool {
    exists|i: int| 0 <= i < ds.len() && is_pair(#[trigger] ds[i], p)
}

/// The table after two entities were declared distinct: a pair that has a row gets the new
/// reason and time, another one a row.
pub open spec fn with_parted(
    ds: Seq<DecorrelationModel>,
    a: Seq<char>,
    b: Seq<char>,
    reason: Option<Seq<char>>,
    s: StampModel,
) -> Seq<DecorrelationModel> {
    let p = ordered(a, b);
    if has_pair(ds, p) {
        Seq::new(
            ds.len(),
            |i: int|
                if is_pair(ds[i], p) {
                    DecorrelationModel { reason, decided_at: s.now, ..ds[i] }
                } else {
                    ds[i]
                },
        )
    } else {
        ds.push(
            DecorrelationModel {
                id: s.id,
                entity_a_id: p.0,
                entity_b_id: p.1,
                reason,
                decided_at: s.now,
            },
        )
    }
}

fn pair_present(ds: &Vec<Decorrelation>, a: &str, b: &str) -> (r: bool)
    ensures
        r == has_pair(rows(ds@), (a@, b@)),
{
    let mut i: usize = 0;
    while i < ds.len()
        invariant
            i <= ds@.len(),
            forall|j: int| 0 <= j < i ==> !is_pair(#[trigger] rows(ds@)[j], (a@, b@)),
        decreases ds.len() - i,
    {
        if str_eq(ds[i].entity_a_id.as_str(), a) && str_eq(ds[i].entity_b_id.as_str(), b) {
            assert(is_pair(rows(ds@)[i as int], (a@, b@)));
            return true;
        }
        i += 1;
    }
    false
}

/// Declares two entities distinct, under the given stamp.
pub fn decorrelate_as(
    world: &mut World,
    entity_a: &str,
    entity_b: &str,
    reason: Option<&str>,
    s: &Stamp,
) -> (r: Result<(), ResolveError>)
    ensures
        entity_a@ == entity_b@ ==> r == Err::<(), ResolveError>(ResolveError::SelfDecorrelation)
            && final(world)@ == old(world)@,
        entity_a@ != entity_b@ ==> r is Ok && final(world)@ == (WorldModel {
            decorrelations: with_parted(
                old(world)@.decorrelations,
                entity_a@,
                entity_b@,
                opt_str(reason),
                s@,
            ),
            ..old(world)@
        }),
{
    if str_eq(entity_a, entity_b) {
        return Err(ResolveError::SelfDecorrelation);
    }
    let (a, b) = if str_before(entity_a, entity_b) {
        (entity_a, entity_b)
    } else {
        (entity_b, entity_a)
    };
    let ghost p = ordered(entity_a@, entity_b@);
    let ghost ds = world@.decorrelations;
    let ghost w = world@;
    let ghost goal = with_parted(ds, entity_a@, entity_b@, opt_str(reason), s@);
    if pair_present(&world.decorrelations, a, b) {
        let mut i: usize = 0;
        while i < world.decorrelations.len()
            invariant
                i <= world.decorrelations@.len(),
                world.decorrelations@.len() == ds.len(),
                p == (a@, b@),
                p == ordered(entity_a@, entity_b@),
                goal == with_parted(ds, entity_a@, entity_b@, opt_str(reason), s@),
                has_pair(ds, p),
                world@ == (WorldModel { decorrelations: rows(world.decorrelations@), ..w }),
                forall|j: int| 0 <= j < i ==> (#[trigger] rows(world.decorrelations@)[j]) == goal[j],
                forall|j: int|
                    i <= j < ds.len() ==> (#[trigger] rows(world.decorrelations@)[j]) == ds[j],
            decreases world.decorrelations.len() - i,
        {
            let ghost cur = rows(world.decorrelations@);
            assert(cur[i as int] == ds[i as int]);
            if str_eq(world.decorrelations[i].entity_a_id.as_str(), a) && str_eq(
                world.decorrelations[i].entity_b_id.as_str(),
                b,
            ) {
                world.decorrelations[i].reason = opt_owned(reason);
                world.decorrelations[i].decided_at = s.now.clone();
            }
            assert forall|j: int| 0 <= j < ds.len() && j != i implies (#[trigger] rows(
                world.decorrelations@,
            )[j]) == cur[j] by {}
            assert(rows(world.decorrelations@)[i as int] == goal[i as int]);
            i += 1;
        }
        assert(rows(world.decorrelations@) =~= goal);
    } else {
        let row = Decorrelation {
            id: s.id.clone(),
            entity_a_id: a.to_owned(),
            entity_b_id: b.to_owned(),
            reason: opt_owned(reason),
            decided_at: s.now.clone(),
        };
        let ghost rv = row@;
        world.decorrelations.push(row);
        assert(rows(world.decorrelations@) =~= ds.push(rv));
    }
    Ok(())
}

/// Persists a human "these are not the same entity" decision, so that no later merge can
/// collapse the pair.
pub fn decorrelate(world: &mut World, entity_a: &str, entity_b: &str, reason: Option<&str>) -> (r:
    Result<(), ResolveError>)
    ensures
        entity_a@ == entity_b@ ==> r == Err::<(), ResolveError>(ResolveError::SelfDecorrelation)
            && final(world)@ == old(world)@,
        entity_a@ != entity_b@ ==> r is Ok && exists|s: StampModel|
            is_stamp(s) && final(world)@ == (WorldModel {
                decorrelations: #[trigger] with_parted(
                    old(world)@.decorrelations,
                    entity_a@,
                    entity_b@,
                    opt_str(reason),
                    s,
                ),
                ..old(world)@
            }),
{
    let s = stamp();
    decorrelate_as(world, entity_a, entity_b, reason, &s)
}

/// Whether two entities were declared distinct.
pub fn is_decorrelated(world: &World, entity_a: &str, entity_b: &str) -> (r: bool)
    ensures
        r == has_pair(world@.decorrelations, ordered(entity_a@, entity_b@)),
{
    if str_before(entity_a, entity_b) {
        pair_present(&world.decorrelations, entity_a, entity_b)
    } else {
        pair_present(&world.decorrelations, entity_b, entity_a)
    }
}

/// The pair of two ids does not depend on the order in which they are given.
pub proof fn law_decorrelation_is_symmetric(
    ds: Seq<DecorrelationModel>,
    a: Seq<char>,
    b: Seq<char>,
)
    ensures
        ordered(a, b) == ordered(b, a),
        has_pair(ds, ordered(a, b)) == has_pair(ds, ordered(b, a)),
{
    crate::text::lemma_before_total(a, b);
    crate::text::lemma_before_irreflexive(a);
    if before(a, b) && before(b, a) {
        crate::text::lemma_before_transitive(a, b, a);
    }
}

/// A declared pair is decorrelated from then on, and every pair that was stays so.
pub proof fn law_decorrelation_is_sticky(
    ds: Seq<DecorrelationModel>,
    a: Seq<char>,
    b: Seq<char>,
    reason: Option<Seq<char>>,
    s: StampModel,
    p: (Seq<char>, Seq<char>),
)
    ensures
        has_pair(with_parted(ds, a, b, reason, s), ordered(a, b)),
        has_pair(ds, p) ==> has_pair(with_parted(ds, a, b, reason, s), p),
{
    let q = ordered(a, b);
    let after = with_parted(ds, a, b, reason, s);
    if has_pair(ds, q) {
        let k = choose|k: int| 0 <= k < ds.len() && is_pair(#[trigger] ds[k], q);
        assert(is_pair(after[k], q));
    } else {
        assert(is_pair(after[ds.len() as int], q));
    }
    if has_pair(ds, p) {
        let k = choose|k: int| 0 <= k < ds.len() && is_pair(#[trigger] ds[k], p);
        assert(is_pair(after[k], p));
    }
}

// ---------------------------------------------------------------------------------------------
// The best candidate

/// The score of a stored entity for a mention, with what the graph says of the entity.
pub open spec fn candidate_match(
    w: WorldModel,
    e: EntityModel,
    mention: Seq<char>,
    mention_type: Option<Seq<char>>,
    cooc_ids: Seq<Seq<char>>,
    weights: Weights,
    now: Seq<char>,
) -> MatchModel {
    match_of(
        features_of(
            mention,
            mention_type,
            e.canonical_name,
            listed(e.aliases),
            e.entity_type,
            (
                cooc_of(w.edges, e.id, cooc_ids),
                corroboration_of(w.candidates, e.id),
                recent_at(e.last_seen, now),
            ),
        ),
        weights,
    )
}

/// The position of the highest total, the first of several.
pub open spec fn first_best(ms: Seq<MatchModel>) -> int
    decreases ms.len(),
{
    if ms.len() <= 1 {
        0
    } else {
        let p = first_best(ms.drop_last());
        if ms.last().total > ms[p].total {
            ms.len() - 1
        } else {
            p
        }
    }
}

/// What `first_best` finds.
pub proof fn lemma_first_best(ms: Seq<MatchModel>)
    requires
        ms.len() > 0,
    ensures
        0 <= first_best(ms) < ms.len(),
        forall|i: int| 0 <= i < ms.len() ==> (#[trigger] ms[i]).total <= ms[first_best(ms)].total,
        forall|i: int|
            0 <= i < first_best(ms) ==> (#[trigger] ms[i]).total < ms[first_best(ms)].total,
    decreases ms.len(),
{
    if ms.len() > 1 {
        let most = ms.drop_last();
        lemma_first_best(most);
        let p = first_best(most);
        assert(most[p] == ms[p]);
        assert forall|i: int| 0 <= i < ms.len() implies (#[trigger] ms[i]).total <= ms[first_best(
            ms,
        )].total by {
            if i < most.len() {
                assert(most[i] == ms[i]);
            }
        }
        assert forall|i: int| 0 <= i < first_best(ms) implies (#[trigger] ms[i]).total
            < ms[first_best(ms)].total by {
            if i < most.len() {
                assert(most[i] == ms[i]);
            }
        }
    }
}

/// The runner-up at `j` is close to the winner at `best`, and a human declared the two distinct.
pub open spec fn vetoes(
    ds: Seq<DecorrelationModel>,
    es: Seq<EntityModel>,
    ms: Seq<MatchModel>,
    best: int,
    j: int,
) -> bool {
    &&& 0 <= j < ms.len()
    &&& j != best
    &&& ms[best].total - ms[j].total < DECORRELATION_VETO_GAP
    &&& parted(ds, es[best].id, es[j].id)
}

/// The score of a vetoed winner: below the merge threshold, with the veto in its breakdown.
pub open spec fn vetoed(m: MatchModel, weights: Weights) -> MatchModel {
    let total = weights.upper - VETO_MARGIN;
    MatchModel {
        total: total as i64,
        contributions: m.contributions.push(("decorrelation_veto"@, total - m.total)),
        ..m
    }
}

/// The winner's score as it is reported: demoted into the review band if it would merge and a
/// close runner-up was declared distinct from it.
pub open spec fn verdict(
    ds: Seq<DecorrelationModel>,
    es: Seq<EntityModel>,
    ms: Seq<MatchModel>,
    best: int,
    weights: Weights,
) -> MatchModel {
    if decision(ms[best].total as int, weights) == Decision::Merge && exists|j: int|
        vetoes(ds, es, ms, best, j) {
        vetoed(ms[best], weights)
    } else {
        ms[best]
    }
}

/// The best-scoring stored entity for a mention, with its score.
pub open spec fn best_of(
    w: WorldModel,
    mention: Seq<char>,
    mention_type: Option<Seq<char>>,
    cooc_ids: Seq<Seq<char>>,
    weights: Weights,
    now: Seq<char>,
) -> Option<(EntityModel, MatchModel)> {
    let es = candidates_of(w, mention);
    let ms = Seq::new(
        es.len(),
        |i: int| candidate_match(w, es[i], mention, mention_type, cooc_ids, weights, now),
    );
    if es.len() == 0 {
        None
    } else {
        let best = first_best(ms);
        Some((es[best], verdict(w.decorrelations, es, ms, best, weights)))
    }
}

/// What the scores of a list hold.
pub open spec fn scores(v: Seq<MatchScore>) -> Seq<MatchModel> {
    Seq::new(v.len(), |i: int| v[i]@)
}

/// What an optional winner holds.
pub open spec fn winner(o: Option<(WmEntity, MatchScore)>) -> Option<(EntityModel, MatchModel)> {
    match o {
        Some((e, m)) => Some((e@, m@)),
        None => None,
    }
}

/// The winner among scored candidates: the first with the highest total, vetoed where a human
/// declared it distinct from a close runner-up.
fn pick(world: &World, es: &Vec<WmEntity>, ms: Vec<MatchScore>, weights: &Weights) -> (r: (
    WmEntity,
    MatchScore,
))
    requires
        es@.len() > 0,
        es@.len() == ms@.len(),
        weights.wf(),
        forall|i: int| 0 <= i < ms@.len() ==> -TOTAL_LIMIT <= (#[trigger] ms@[i]).total <= TOTAL_LIMIT,
        forall|i: int| 0 <= i < ms@.len() ==> (#[trigger] ms@[i]).explained(),
    ensures
        ({
            let best = first_best(scores(ms@));
            &&& r.0@ == es@[best]@
            &&& r.1@ == verdict(world@.decorrelations, rows(es@), scores(ms@), best, *weights)
            &&& r.1.explained()
        }),
{
    let mut ms = ms;
    let ghost all = scores(ms@);
    let ghost ents = rows(es@);
    let ghost ds = world@.decorrelations;
    let mut best: usize = 0;
    let mut i: usize = 1;
    assert(all.take(1).len() == 1);
    while i < ms.len()
        invariant
            1 <= i <= ms@.len(),
            all == scores(ms@),
            best < i,
            best == first_best(all.take(i as int)),
        decreases ms.len() - i,
    {
        assert(all.take(i + 1).drop_last() =~= all.take(i as int));
        assert(all.take(i + 1)[best as int] == all[best as int]);
        if ms[i].total > ms[best].total {
            best = i;
        }
        i += 1;
    }
    assert(all.take(i as int) =~= all);
    let top = ms[best].total;
    let ent = es[best].dup();
    let mut close: Vec<String> = Vec::new();
    let mut j: usize = 0;
    while j < ms.len()
        invariant
            j <= ms@.len(),
            best < ms@.len(),
            ms@.len() == es@.len(),
            all == scores(ms@),
            ents == rows(es@),
            top == all[best as int].total,
            -TOTAL_LIMIT <= top <= TOTAL_LIMIT,
            forall|i: int|
                0 <= i < ms@.len() ==> -TOTAL_LIMIT <= (#[trigger] ms@[i]).total <= TOTAL_LIMIT,
            forall|k: int|
                0 <= k < j && k != best && top - all[k].total < DECORRELATION_VETO_GAP ==> views(
                    close@,
                ).contains((#[trigger] ents[k]).id),
            all_close(ents, all, best as int, views(close@), j as int),
        decreases ms.len() - j,
    {
        let ghost before_push = views(close@);
        assert(-TOTAL_LIMIT <= ms@[j as int].total <= TOTAL_LIMIT);
        if j != best && top - ms[j].total < DECORRELATION_VETO_GAP {
            close.push(es[j].id.clone());
            proof {
                assert(views(close@) =~= before_push.push(ents[j as int].id));
                assert(views(close@)[before_push.len() as int] == ents[j as int].id);
                assert forall|k: int|
                    0 <= k < j + 1 && k != best && top - all[k].total
                        < DECORRELATION_VETO_GAP implies views(close@).contains(
                    (#[trigger] ents[k]).id,
                ) by {
                    if k < j {
                        assert(before_push.contains(ents[k].id));
                        let n = choose|n: int|
                            0 <= n < before_push.len() && before_push[n] == ents[k].id;
                        assert(views(close@)[n] == ents[k].id);
                    }
                }
            }
        }
        proof {
            lemma_all_close_grows(ents, all, best as int, before_push, j as int);
        }
        j += 1;
    }
    let veto = match decide(top, weights) {
        Decision::Merge => decorrelated_with_any(world, ent.id.as_str(), &close),
        _ => false,
    };
    proof {
        if decision(top as int, *weights) == Decision::Merge {
            lemma_veto(ds, ents, all, best as int, views(close@));
        }
    }
    let mut won = ms.swap_remove(best);
    if veto {
        let total: i64 = weights.upper - VETO_MARGIN;
        let ghost old_parts = parts(won.contributions@);
        won.contributions.push(("decorrelation_veto".to_owned(), total - won.total));
        proof {
            assert(parts(won.contributions@) =~= old_parts.push(
                ("decorrelation_veto"@, total - won.total),
            ));
            assert(parts(won.contributions@).drop_last() =~= old_parts);
        }
        won.total = total;
        assert(won@ == vetoed(all[best as int], *weights));
    }
    (ent, won)
}

/// The entity at `k` has the given id and is a close runner-up.
spec fn close_at(
    es: Seq<EntityModel>,
    ms: Seq<MatchModel>,
    best: int,
    k: int,
    id: Seq<char>,
) -> bool {
    &&& 0 <= k < ms.len()
    &&& k != best
    &&& ms[best].total - ms[k].total < DECORRELATION_VETO_GAP
    &&& es[k].id == id
}

/// A close runner-up before position `upto` has the given id.
spec fn close_before(
    es: Seq<EntityModel>,
    ms: Seq<MatchModel>,
    best: int,
    id: Seq<char>,
    upto: int,
) -> bool {
    exists|k: int| k < upto && #[trigger] close_at(es, ms, best, k, id)
}

spec fn all_close(
    es: Seq<EntityModel>,
    ms: Seq<MatchModel>,
    best: int,
    ids: Seq<Seq<char>>,
    upto: int,
) -> bool {
    forall|n: int| 0 <= n < ids.len() ==> close_before(es, ms, best, #[trigger] ids[n], upto)
}

proof fn lemma_all_close_grows(
    es: Seq<EntityModel>,
    ms: Seq<MatchModel>,
    best: int,
    ids: Seq<Seq<char>>,
    upto: int,
)
    requires
        all_close(es, ms, best, ids, upto),
    ensures
        all_close(es, ms, best, ids, upto + 1),
        close_at(es, ms, best, upto, es[upto].id) ==> all_close(
            es,
            ms,
            best,
            ids.push(es[upto].id),
            upto + 1,
        ),
{
    assert forall|n: int| 0 <= n < ids.len() implies close_before(
        es,
        ms,
        best,
        #[trigger] ids[n],
        upto + 1,
    ) by {
        assert(close_before(es, ms, best, ids[n], upto));
        let k = choose|k: int| k < upto && #[trigger] close_at(es, ms, best, k, ids[n]);
        assert(k < upto + 1 && close_at(es, ms, best, k, ids[n]));
    }
    if close_at(es, ms, best, upto, es[upto].id) {
        let more = ids.push(es[upto].id);
        assert forall|n: int| 0 <= n < more.len() implies close_before(
            es,
            ms,
            best,
            #[trigger] more[n],
            upto + 1,
        ) by {
            if n < ids.len() {
                assert(close_before(es, ms, best, ids[n], upto + 1));
            }
        }
    }
}

proof fn lemma_veto(
    ds: Seq<DecorrelationModel>,
    es: Seq<EntityModel>,
    ms: Seq<MatchModel>,
    best: int,
    close: Seq<Seq<char>>,
)
    requires
        0 <= best < ms.len(),
        es.len() == ms.len(),
        forall|k: int|
            0 <= k < ms.len() && k != best && ms[best].total - ms[k].total < DECORRELATION_VETO_GAP
                ==> close.contains((#[trigger] es[k]).id),
        all_close(es, ms, best, close, ms.len() as int),
    ensures
        parted_from_any(ds, es[best].id, close) <==> exists|j: int| vetoes(ds, es, ms, best, j),
{
    let id = es[best].id;
    if parted_from_any(ds, id, close) {
        let i = choose|i: int|
            0 <= i < ds.len() && (((#[trigger] ds[i]).entity_a_id == id && close.contains(
                ds[i].entity_b_id,
            )) || (ds[i].entity_b_id == id && close.contains(ds[i].entity_a_id)));
        let other = if ds[i].entity_a_id == id && close.contains(ds[i].entity_b_id) {
            ds[i].entity_b_id
        } else {
            ds[i].entity_a_id
        };
        let n = choose|n: int| 0 <= n < close.len() && close[n] == other;
        assert(close_before(es, ms, best, close[n], ms.len() as int));
        let k = choose|k: int| k < ms.len() && #[trigger] close_at(es, ms, best, k, close[n]);
        assert(row_parts(ds[i], id, es[k].id));
        assert(vetoes(ds, es, ms, best, k));
    }
    if exists|j: int| vetoes(ds, es, ms, best, j) {
        let j = choose|j: int| vetoes(ds, es, ms, best, j);
        assert(close.contains(es[j].id));
        let i = choose|i: int| 0 <= i < ds.len() && row_parts(#[trigger] ds[i], id, es[j].id);
        assert(ds[i].entity_a_id == id || ds[i].entity_b_id == id);
    }
}

/// The entity at a position goes by the name of the mention, and its type does not conflict.
pub open spec fn is_meant(
    es: Seq<EntityModel>,
    j: int,
    mention: Seq<char>,
    mention_type: Option<Seq<char>>,
) -> bool {
    &&& 0 <= j < es.len()
    &&& goes_by(mention, es[j].canonical_name, listed(es[j].aliases))
    &&& !types_conflict(mention_type, es[j].entity_type)
}

/// Best-scoring stored entity for a mention, via blocking and the probabilistic matcher.
/// `cooc_ids` are entities already resolved from the same source item (context evidence). If
/// the winner would merge but a human previously decorrelated it from a close runner-up, the
/// score is demoted into the review band and the veto is recorded in the breakdown.
pub fn best_candidate(
    world: &World,
    mention: &str,
    mention_type: Option<&str>,
    cooc_ids: &Vec<String>,
    weights: &Weights,
    now: &str,
) -> (r: Option<(WmEntity, MatchScore)>)
    requires
        weights.wf(),
    ensures
        winner(r) == best_of(
            world@,
            mention@,
            opt_str(mention_type),
            views(cooc_ids@),
            *weights,
            now@,
        ),
        r matches Some((e, m)) ==> m.explained(),
        weights.is_default() && world@.decorrelations.len() == 0 && (exists|j: int|
            is_meant(
                candidates_of(world@, mention@),
                j,
                mention@,
                opt_str(mention_type),
            )) ==> (r matches Some((e, m)) && m.total >= weights.upper),
{
    let es = candidates_for(world, mention);
    let ghost ents = candidates_of(world@, mention@);
    let ghost all = Seq::new(
        ents.len(),
        |i: int|
            candidate_match(
                world@,
                ents[i],
                mention@,
                opt_str(mention_type),
                views(cooc_ids@),
                *weights,
                now@,
            ),
    );
    assert(rows(es@).len() == es@.len());
    if es.len() == 0 {
        return None;
    }
    let mut ms: Vec<MatchScore> = Vec::new();
    let mut i: usize = 0;
    while i < es.len()
        invariant
            i <= es@.len(),
            weights.wf(),
            rows(es@) == ents,
            ms@.len() == i,
            all == Seq::new(
                ents.len(),
                |i: int|
                    candidate_match(
                        world@,
                        ents[i],
                        mention@,
                        opt_str(mention_type),
                        views(cooc_ids@),
                        *weights,
                        now@,
                    ),
            ),
            forall|j: int| 0 <= j < i ==> (#[trigger] ms@[j])@ == all[j],
            forall|j: int|
                0 <= j < i ==> -TOTAL_LIMIT <= (#[trigger] ms@[j]).total <= TOTAL_LIMIT,
            forall|j: int| 0 <= j < i ==> (#[trigger] ms@[j]).explained(),
            forall|j: int|
                0 <= j < i && weights.is_default() && is_meant(
                    ents,
                    j,
                    mention@,
                    opt_str(mention_type),
                ) ==> (#[trigger] ms@[j]).total >= weights.upper,
        decreases es.len() - i,
    {
        let ent = &es[i];
        assert(ent@ == ents[i as int]);
        let aliases = ent.alias_list();
        let cand = Candidate {
            canonical: ent.canonical_name.as_str(),
            aliases: aliases.as_slice(),
            entity_type: ent.entity_type.as_str(),
            cooc: cooc_fraction(world, ent.id.as_str(), cooc_ids),
            corroboration: corroboration_count(world, ent.id.as_str()),
            recent: is_recent(ent.last_seen.as_str(), now),
        };
        ms.push(score(mention, mention_type, &cand, weights));
        i += 1;
    }
    assert(scores(ms@) =~= all);
    proof {
        lemma_first_best(all);
        if exists|j: int| is_meant(ents, j, mention@, opt_str(mention_type)) {
            let j = choose|j: int| is_meant(ents, j, mention@, opt_str(mention_type));
            assert(ms@[j]@ == all[j]);
        }
    }
    Some(pick(world, &es, ms, weights))
}

/// A merge is never proposed against a human decision: where the best candidate merges, no
/// candidate close to it was declared distinct from it.
pub proof fn law_merge_respects_decorrelation(
    w: WorldModel,
    mention: Seq<char>,
    mention_type: Option<Seq<char>>,
    cooc_ids: Seq<Seq<char>>,
    weights: Weights,
    now: Seq<char>,
    j: int,
)
    requires
        weights.wf(),
        best_of(w, mention, mention_type, cooc_ids, weights, now) matches Some((e, m)) && decision(
            m.total as int,
            weights,
        ) == Decision::Merge,
    ensures
        ({
            let es = candidates_of(w, mention);
            let ms = Seq::new(
                es.len(),
                |i: int| candidate_match(w, es[i], mention, mention_type, cooc_ids, weights, now),
            );
            !vetoes(w.decorrelations, es, ms, first_best(ms), j)
        }),
{
}

/// A vetoed merge goes to review, wherever the review band reaches half a unit below the merge
/// threshold.
pub proof fn law_veto_goes_to_review(m: MatchModel, weights: Weights)
    requires
        weights.wf(),
        weights.lower <= weights.upper - VETO_MARGIN,
    ensures
        decision(vetoed(m, weights).total as int, weights) == Decision::Review,
{
}

// ---------------------------------------------------------------------------------------------
// Entities

/// The row of a new entity.
pub open spec fn entity_row(
    name: Seq<char>,
    entity_type: Seq<char>,
    aliases: Seq<char>,
    confidence: Double,
    s: StampModel,
) -> EntityModel {
    EntityModel {
        id: s.id,
        entity_type,
        canonical_name: name,
        aliases,
        external_ids: "{}"@,
        confidence,
        metadata: "{}"@,
        first_seen: s.now,
        last_seen: s.now,
        is_live: true,
        expiry_time: Some(s.expiry),
        last_source_update_time: Some(s.now),
    }
}

/// The world with one more entity, indexed under its names.
pub open spec fn created(
    w: WorldModel,
    name: Seq<char>,
    entity_type: Seq<char>,
    alias_json: Seq<char>,
    aliases: Seq<Seq<char>>,
    confidence: Double,
    s: StampModel,
) -> WorldModel {
    WorldModel {
        entities: w.entities.push(entity_row(name, entity_type, alias_json, confidence, s)),
        keys: indexed(w.keys, s.id, name, aliases),
        ..w
    }
}

/// The world with one more entity that has no alias.
pub open spec fn created_plain(
    w: WorldModel,
    name: Seq<char>,
    entity_type: Seq<char>,
    confidence: Double,
    s: StampModel,
) -> WorldModel {
    created(w, name, entity_type, "[]"@, seq![], confidence, s)
}

fn insert_entity(
    world: &mut World,
    name: &str,
    entity_type: &str,
    alias_json: String,
    aliases: &Vec<String>,
    confidence: Double,
    s: &Stamp,
)
    ensures
        final(world)@ == created(
            old(world)@,
            name@,
            entity_type@,
            alias_json@,
            views(aliases@),
            confidence,
            s@,
        ),
{
    let row = WmEntity {
        id: s.id.clone(),
        entity_type: entity_type.to_owned(),
        canonical_name: name.to_owned(),
        aliases: alias_json,
        external_ids: "{}".to_owned(),
        confidence,
        metadata: "{}".to_owned(),
        first_seen: s.now.clone(),
        last_seen: s.now.clone(),
        is_live: true,
        expiry_time: Some(s.expiry.clone()),
        last_source_update_time: Some(s.now.clone()),
    };
    let ghost rv = row@;
    let ghost w = world@;
    world.entities.push(row);
    assert(rows(world.entities@) =~= w.entities.push(rv));
    index_entity(world, s.id.as_str(), name, aliases.as_slice());
}

/// Stores a new entity under the given stamp.
pub fn create_entity_as(
    world: &mut World,
    mention: &str,
    entity_type: &str,
    confidence: Double,
    s: &Stamp,
)
    ensures
        final(world)@ == created_plain(old(world)@, mention@, entity_type@, confidence, s@),
{
    let none: Vec<String> = Vec::new();
    assert(views(none@) =~= seq![]);
    insert_entity(world, mention, entity_type, "[]".to_owned(), &none, confidence, s);
}

/// Stores a new entity under a fresh id, which is returned.
pub fn create_entity(world: &mut World, mention: &str, entity_type: &str, confidence: Double) -> (r:
    String)
    ensures
        exists|s: StampModel|
            is_stamp(s) && s.id == r@ && final(world)@ == #[trigger] created_plain(
                old(world)@,
                mention@,
                entity_type@,
                confidence,
                s,
            ),
{
    let s = stamp();
    create_entity_as(world, mention, entity_type, confidence, &s);
    assert(world@ == created_plain(old(world)@, mention@, entity_type@, confidence, s@));
    s.id
}

/// An entity after a fresh source touch.
pub open spec fn touched_row(e: EntityModel, s: StampModel) -> EntityModel {
    EntityModel {
        last_seen: s.now,
        expiry_time: Some(s.expiry),
        last_source_update_time: Some(s.now),
        is_live: true,
        ..e
    }
}

/// The entities after a fresh source touch of one of them.
pub open spec fn touched(es: Seq<EntityModel>, id: Seq<char>, s: StampModel) -> Seq<EntityModel> {
    Seq::new(
        es.len(),
        |i: int|
            if es[i].id == id {
                touched_row(es[i], s)
            } else {
                es[i]
            },
    )
}

/// A fresh source touch refreshes liveness: `last_seen`, `expiry_time` and
/// `last_source_update_time` all move forward, and a previously expired entity is revived.
pub fn touch_entity(world: &mut World, id: &str, s: &Stamp)
    ensures
        final(world)@ == (WorldModel {
            entities: touched(old(world)@.entities, id@, s@),
            ..old(world)@
        }),
{
    let ghost w = world@;
    let ghost goal = touched(w.entities, id@, s@);
    let mut i: usize = 0;
    while i < world.entities.len()
        invariant
            i <= world.entities@.len(),
            world.entities@.len() == w.entities.len(),
            goal == touched(w.entities, id@, s@),
            world@ == (WorldModel { entities: rows(world.entities@), ..w }),
            forall|j: int| 0 <= j < i ==> (#[trigger] rows(world.entities@)[j]) == goal[j],
            forall|j: int|
                i <= j < w.entities.len() ==> (#[trigger] rows(world.entities@)[j])
                    == w.entities[j],
        decreases world.entities.len() - i,
    {
        let ghost cur = rows(world.entities@);
        assert(cur[i as int] == w.entities[i as int]);
        if str_eq(world.entities[i].id.as_str(), id) {
            world.entities[i].last_seen = s.now.clone();
            world.entities[i].expiry_time = Some(s.expiry.clone());
            world.entities[i].last_source_update_time = Some(s.now.clone());
            world.entities[i].is_live = true;
        }
        assert forall|j: int| 0 <= j < cur.len() && j != i implies (#[trigger] rows(
            world.entities@,
        )[j]) == cur[j] by {}
        assert(rows(world.entities@)[i as int] == goal[i as int]);
        i += 1;
    }
    assert(rows(world.entities@) =~= goal);
}

/// The entities with another alias list for one of them.
pub open spec fn realiased(es: Seq<EntityModel>, id: Seq<char>, json: Seq<char>) -> Seq<
    EntityModel,
> {
    Seq::new(
        es.len(),
        |i: int|
            if es[i].id == id {
                EntityModel { aliases: json, ..es[i] }
            } else {
                es[i]
            },
    )
}

/// The world after an alias was offered for an entity: the name it has and the aliases it has
/// are not added again.
pub open spec fn with_alias(w: WorldModel, e: EntityModel, alias: Seq<char>) -> WorldModel {
    let aliases = listed(e.aliases);
    if alias == e.canonical_name || aliases.contains(alias) {
        w
    } else {
        let more = aliases.push(alias);
        WorldModel {
            entities: realiased(w.entities, e.id, printed_list(more)),
            keys: indexed(w.keys, e.id, e.canonical_name, more),
            ..w
        }
    }
}

fn add_alias(world: &mut World, entity: &WmEntity, alias: &str)
    ensures
        final(world)@ == with_alias(old(world)@, entity@, alias@),
{
    let mut aliases = entity.alias_list();
    if str_eq(alias, entity.canonical_name.as_str()) || list_has(&aliases, alias) {
        return;
    }
    let ghost had = views(aliases@);
    aliases.push(alias.to_owned());
    assert(views(aliases@) =~= had.push(alias@));
    let json = print_list(&aliases);
    let ghost w = world@;
    let ghost goal = realiased(w.entities, entity@.id, json@);
    let mut i: usize = 0;
    while i < world.entities.len()
        invariant
            i <= world.entities@.len(),
            world.entities@.len() == w.entities.len(),
            goal == realiased(w.entities, entity@.id, json@),
            world@ == (WorldModel { entities: rows(world.entities@), ..w }),
            forall|j: int| 0 <= j < i ==> (#[trigger] rows(world.entities@)[j]) == goal[j],
            forall|j: int|
                i <= j < w.entities.len() ==> (#[trigger] rows(world.entities@)[j])
                    == w.entities[j],
        decreases world.entities.len() - i,
    {
        let ghost cur = rows(world.entities@);
        assert(cur[i as int] == w.entities[i as int]);
        if str_eq(world.entities[i].id.as_str(), entity.id.as_str()) {
            world.entities[i].aliases = json.clone();
        }
        assert forall|j: int| 0 <= j < cur.len() && j != i implies (#[trigger] rows(
            world.entities@,
        )[j]) == cur[j] by {}
        assert(rows(world.entities@)[i as int] == goal[i as int]);
        i += 1;
    }
    assert(rows(world.entities@) =~= goal);
    index_entity(world, entity.id.as_str(), entity.canonical_name.as_str(), aliases.as_slice());
}

/// The entity lives on although its expiry has passed.
pub open spec fn is_stale(e: EntityModel, now: Seq<char>) -> bool {
    e.is_live && match e.expiry_time {
        Some(t) => before(t, now),
        None => false,
    }
}

/// The entities with the stale ones no longer live.
pub open spec fn expired(es: Seq<EntityModel>, now: Seq<char>) -> Seq<EntityModel> {
    Seq::new(
        es.len(),
        |i: int|
            if is_stale(es[i], now) {
                EntityModel { is_live: false, ..es[i] }
            } else {
                es[i]
            },
    )
}

pub open spec fn stale_count(es: Seq<EntityModel>, now: Seq<char>) -> int
    decreases es.len(),
{
    if es.len() == 0 {
        0
    } else {
        stale_count(es.drop_last(), now) + if is_stale(es.last(), now) {
            1int
        } else {
            0
        }
    }
}

/// Ends the life of every entity whose expiry lies before `now`. Returns how many.
pub fn expire_stale_entities_at(world: &mut World, now: &str) -> (r: usize)
    ensures
        final(world)@ == (WorldModel {
            entities: expired(old(world)@.entities, now@),
            ..old(world)@
        }),
        r == stale_count(old(world)@.entities, now@),
{
    let ghost w = world@;
    let ghost goal = expired(w.entities, now@);
    let mut n: usize = 0;
    let mut i: usize = 0;
    assert(w.entities.take(0) =~= seq![]);
    while i < world.entities.len()
        invariant
            i <= world.entities@.len(),
            world.entities@.len() == w.entities.len(),
            goal == expired(w.entities, now@),
            n <= i,
            n == stale_count(w.entities.take(i as int), now@),
            world@ == (WorldModel { entities: rows(world.entities@), ..w }),
            forall|j: int| 0 <= j < i ==> (#[trigger] rows(world.entities@)[j]) == goal[j],
            forall|j: int|
                i <= j < w.entities.len() ==> (#[trigger] rows(world.entities@)[j])
                    == w.entities[j],
        decreases world.entities.len() - i,
    {
        let ghost cur = rows(world.entities@);
        assert(w.entities.take(i + 1).drop_last() =~= w.entities.take(i as int));
        assert(cur[i as int] == w.entities[i as int]);
        let stale = world.entities[i].is_live && match &world.entities[i].expiry_time {
            Some(t) => str_before(t.as_str(), now),
            None => false,
        };
        if stale {
            world.entities[i].is_live = false;
            n += 1;
        }
        assert forall|j: int| 0 <= j < cur.len() && j != i implies (#[trigger] rows(
            world.entities@,
        )[j]) == cur[j] by {}
        assert(rows(world.entities@)[i as int] == goal[i as int]);
        i += 1;
    }
    assert(w.entities.take(i as int) =~= w.entities);
    assert(rows(world.entities@) =~= goal);
    n
}

/// Ends the life of every entity whose expiry has passed and that no fresh source touch has
/// refreshed. Returns how many. Run periodically.
pub fn expire_stale_entities(world: &mut World) -> (r: usize)
    ensures
        exists|now: Seq<char>|
            is_instant(now) && final(world)@ == (WorldModel {
                entities: #[trigger] expired(old(world)@.entities, now),
                ..old(world)@
            }) && r == stale_count(old(world)@.entities, now),
{
    let t = crate::models::now();
    let r = expire_stale_entities_at(world, t.as_str());
    assert(world@ == (WorldModel { entities: expired(old(world)@.entities, t@), ..old(world)@ }));
    r
}

/// After expiry no entity is stale, and those that were not are as they were.
pub proof fn law_expiry_is_exact(es: Seq<EntityModel>, now: Seq<char>, i: int)
    requires
        0 <= i < es.len(),
    ensures
        !is_stale(expired(es, now)[i], now),
        !is_stale(es[i], now) ==> expired(es, now)[i] == es[i],
        expired(expired(es, now), now) == expired(es, now),
{
    assert(expired(expired(es, now), now) =~= expired(es, now));
}

/// A touch revives an entity: it lives, and it stays live until the expiry of the touch.
pub proof fn law_touch_revives(
    es: Seq<EntityModel>,
    id: Seq<char>,
    s: StampModel,
    now: Seq<char>,
    i: int,
)
    requires
        0 <= i < es.len(),
        es[i].id == id,
    ensures
        touched(es, id, s)[i].is_live,
        !before(s.expiry, now) ==> expired(touched(es, id, s), now)[i].is_live,
{
}

/// A touch moves the expiry forward: under a stamp that was drawn, an entity expires thirty days
/// after it was seen last, and not before.
pub proof fn law_touch_moves_expiry(es: Seq<EntityModel>, id: Seq<char>, s: StampModel, i: int)
    requires
        is_stamp(s),
        has_common_year(s.expiry),
        0 <= i < es.len(),
        es[i].id == id,
    ensures
        ({
            let e = touched(es, id, s)[i];
            &&& e.last_seen == s.now
            &&& e.expiry_time == Some(s.expiry)
            &&& elapsed_seconds(e.last_seen, s.expiry) == Some(DEFAULT_EXPIRY_SECONDS)
            &&& before(e.last_seen, s.expiry)
            &&& !is_stale(e, s.now)
            &&& expired(touched(es, id, s), s.now)[i].is_live
        }),
{
    if before(s.expiry, s.now) {
        crate::text::lemma_before_transitive(s.now, s.expiry, s.now);
        crate::text::lemma_before_irreflexive(s.now);
    }
}

/// Resolution dedups against full history: expiry does not change which entities a mention meets.
pub proof fn law_expired_entities_are_still_met(
    w: WorldModel,
    now: Seq<char>,
    mention: Seq<char>,
    i: int,
)
    ensures
        ({
            let after = WorldModel { entities: expired(w.entities, now), ..w };
            &&& candidates_of(after, mention).len() == candidates_of(w, mention).len()
            &&& 0 <= i < candidates_of(w, mention).len() ==> candidates_of(after, mention)[i].id
                == candidates_of(w, mention)[i].id
        }),
{
    let es = expired(w.entities, now);
    assert forall|j: int| 0 <= j < es.len() implies (#[trigger] es[j]).id == (
    #[trigger] w.entities[j]).id by {}
    lemma_with_ids_agrees(es, w.entities, blocked_ids(w.keys, mention));
}

// ---------------------------------------------------------------------------------------------
// Merging entities

/// The texts of `more` that are not there yet, added one by one.
pub open spec fn united_list(list: Seq<Seq<char>>, more: Seq<Seq<char>>) -> Seq<Seq<char>>
    decreases more.len(),
{
    if more.len() == 0 {
        list
    } else {
        let r = united_list(list, more.drop_last());
        if r.contains(more.last()) {
            r
        } else {
            r.push(more.last())
        }
    }
}

/// The aliases of the kept entity after it absorbed another: its own, those of the other, and
/// the other's canonical name.
pub open spec fn merged_aliases(keep: EntityModel, absorb: EntityModel) -> Seq<Seq<char>> {
    let both = united_list(listed(keep.aliases), listed(absorb.aliases));
    if !both.contains(absorb.canonical_name) && absorb.canonical_name != keep.canonical_name {
        both.push(absorb.canonical_name)
    } else {
        both
    }
}

/// `keep` in place of `absorb`.
pub open spec fn repointed(x: Seq<char>, keep: Seq<char>, absorb: Seq<char>) -> Seq<char> {
    if x == absorb {
        keep
    } else {
        x
    }
}

pub open spec fn merged_edges(es: Seq<EdgeModel>, keep: Seq<char>, absorb: Seq<char>) -> Seq<
    EdgeModel,
> {
    Seq::new(
        es.len(),
        |i: int|
            EdgeModel {
                from_id: repointed(es[i].from_id, keep, absorb),
                to_id: repointed(es[i].to_id, keep, absorb),
                ..es[i]
            },
    )
}

pub open spec fn merged_candidates(
    cs: Seq<CandidateModel>,
    keep: Seq<char>,
    absorb: Seq<char>,
) -> Seq<CandidateModel> {
    Seq::new(
        cs.len(),
        |i: int|
            if cs[i].best_match_entity_id == Some(absorb) {
                CandidateModel { best_match_entity_id: Some(keep), ..cs[i] }
            } else {
                cs[i]
            },
    )
}

/// The entities with the kept one updated and the absorbed one gone.
pub open spec fn merged_entities(
    es: Seq<EntityModel>,
    keep: EntityModel,
    absorb: EntityModel,
    now: Seq<char>,
) -> Seq<EntityModel>
    decreases es.len(),
{
    if es.len() == 0 {
        seq![]
    } else {
        let rest = merged_entities(es.drop_first(), keep, absorb, now);
        let e = es[0];
        if e.id == absorb.id {
            rest
        } else if e.id == keep.id {
            seq![
                EntityModel {
                    aliases: printed_list(merged_aliases(keep, absorb)),
                    confidence: keep.confidence.spec_max(absorb.confidence),
                    last_seen: now,
                    ..e
                },
            ] + rest
        } else {
            seq![e] + rest
        }
    }
}

/// The world after `absorb` was folded into `keep`: edges and candidates point to the kept
/// entity, aliases are carried over, the absorbed entity is gone.
pub open spec fn merged(
    w: WorldModel,
    keep: EntityModel,
    absorb: EntityModel,
    now: Seq<char>,
) -> WorldModel {
    WorldModel {
        edges: merged_edges(w.edges, keep.id, absorb.id),
        candidates: merged_candidates(w.candidates, keep.id, absorb.id),
        entities: merged_entities(w.entities, keep, absorb, now),
        keys: indexed(w.keys, keep.id, keep.canonical_name, merged_aliases(keep, absorb)),
        ..w
    }
}

/// The kept entity has every name of both as its canonical name or an alias that can be read
/// back.
pub open spec fn names_carried(
    w: WorldModel,
    after: WorldModel,
    keep_id: Seq<char>,
    absorb_id: Seq<char>,
) -> bool {
    let (k, a) = (entity_of(w.entities, keep_id)->0, entity_of(w.entities, absorb_id)->0);
    forall|i: int, name: Seq<char>|
        #![trigger after.entities[i], listed(k.aliases).contains(name)]
        #![trigger after.entities[i], listed(a.aliases).contains(name)]
        #![trigger listed(after.entities[i].aliases).contains(name)]
        0 <= i < after.entities.len() && after.entities[i].id == keep_id ==> (listed(
            after.entities[i].aliases,
        ).contains(name) <==> listed(k.aliases).contains(name) || listed(a.aliases).contains(name)
            || (name == a.canonical_name && name != k.canonical_name))
}

fn join_aliases(keep: &WmEntity, absorb: &WmEntity) -> (r: Vec<String>)
    ensures
        views(r@) == merged_aliases(keep@, absorb@),
{
    let mut aliases = keep.alias_list();
    let more = absorb.alias_list();
    let ghost own = views(aliases@);
    let mut i: usize = 0;
    assert(views(more@).take(0) =~= seq![]);
    while i < more.len()
        invariant
            i <= more@.len(),
            views(aliases@) == united_list(own, views(more@).take(i as int)),
        decreases more.len() - i,
    {
        assert(views(more@).take(i + 1).drop_last() =~= views(more@).take(i as int));
        let ghost had = views(aliases@);
        if !list_has(&aliases, more[i].as_str()) {
            aliases.push(more[i].clone());
            assert(views(aliases@) =~= had.push(more@[i as int]@));
        }
        i += 1;
    }
    assert(views(more@).take(i as int) =~= views(more@));
    if !list_has(&aliases, absorb.canonical_name.as_str()) && !str_eq(
        absorb.canonical_name.as_str(),
        keep.canonical_name.as_str(),
    ) {
        let ghost had = views(aliases@);
        aliases.push(absorb.canonical_name.clone());
        assert(views(aliases@) =~= had.push(absorb@.canonical_name));
    }
    aliases
}

fn repoint_edges(world: &mut World, keep: &str, absorb: &str)
    ensures
        final(world)@ == (WorldModel {
            edges: merged_edges(old(world)@.edges, keep@, absorb@),
            ..old(world)@
        }),
{
    let ghost w = world@;
    let ghost goal = merged_edges(w.edges, keep@, absorb@);
    let mut i: usize = 0;
    while i < world.edges.len()
        invariant
            i <= world.edges@.len(),
            world.edges@.len() == w.edges.len(),
            goal == merged_edges(w.edges, keep@, absorb@),
            world@ == (WorldModel { edges: rows(world.edges@), ..w }),
            forall|j: int| 0 <= j < i ==> (#[trigger] rows(world.edges@)[j]) == goal[j],
            forall|j: int|
                i <= j < w.edges.len() ==> (#[trigger] rows(world.edges@)[j]) == w.edges[j],
        decreases world.edges.len() - i,
    {
        let ghost cur = rows(world.edges@);
        assert(cur[i as int] == w.edges[i as int]);
        if str_eq(world.edges[i].from_id.as_str(), absorb) {
            world.edges[i].from_id = keep.to_owned();
        }
        if str_eq(world.edges[i].to_id.as_str(), absorb) {
            world.edges[i].to_id = keep.to_owned();
        }
        assert forall|j: int| 0 <= j < cur.len() && j != i implies (#[trigger] rows(
            world.edges@,
        )[j]) == cur[j] by {}
        assert(rows(world.edges@)[i as int] == goal[i as int]);
        i += 1;
    }
    assert(rows(world.edges@) =~= goal);
}

fn repoint_candidates(world: &mut World, keep: &str, absorb: &str)
    ensures
        final(world)@ == (WorldModel {
            candidates: merged_candidates(old(world)@.candidates, keep@, absorb@),
            ..old(world)@
        }),
{
    let ghost w = world@;
    let ghost goal = merged_candidates(w.candidates, keep@, absorb@);
    let mut i: usize = 0;
    while i < world.candidates.len()
        invariant
            i <= world.candidates@.len(),
            world.candidates@.len() == w.candidates.len(),
            goal == merged_candidates(w.candidates, keep@, absorb@),
            world@ == (WorldModel { candidates: rows(world.candidates@), ..w }),
            forall|j: int| 0 <= j < i ==> (#[trigger] rows(world.candidates@)[j]) == goal[j],
            forall|j: int|
                i <= j < w.candidates.len() ==> (#[trigger] rows(world.candidates@)[j])
                    == w.candidates[j],
        decreases world.candidates.len() - i,
    {
        let ghost cur = rows(world.candidates@);
        assert(cur[i as int] == w.candidates[i as int]);
        if holds(&world.candidates[i].best_match_entity_id, absorb) {
            world.candidates[i].best_match_entity_id = Some(keep.to_owned());
        }
        assert forall|j: int| 0 <= j < cur.len() && j != i implies (#[trigger] rows(
            world.candidates@,
        )[j]) == cur[j] by {}
        assert(rows(world.candidates@)[i as int] == goal[i as int]);
        i += 1;
    }
    assert(rows(world.candidates@) =~= goal);
}

fn fold_entities(
    world: &mut World,
    keep: &WmEntity,
    absorb: &WmEntity,
    aliases: &Vec<String>,
    now: &str,
)
    requires
        views(aliases@) == merged_aliases(keep@, absorb@),
    ensures
        final(world)@ == (WorldModel {
            entities: merged_entities(old(world)@.entities, keep@, absorb@, now@),
            ..old(world)@
        }),
        listed(printed_list(merged_aliases(keep@, absorb@))) == merged_aliases(keep@, absorb@),
{
    let json = print_list(aliases);
    let ghost w = world@;
    let ghost k = keep@;
    let ghost a = absorb@;
    let mut i: usize = 0;
    assert(w.entities.skip(0) =~= w.entities);
    assert(w.entities.take(0) + merged_entities(w.entities, k, a, now@) =~= merged_entities(
        w.entities,
        k,
        a,
        now@,
    ));
    while i < world.entities.len()
        invariant
            i <= world.entities@.len(),
            k == keep@,
            a == absorb@,
            json@ == printed_list(merged_aliases(k, a)),
            world@ == (WorldModel { entities: rows(world.entities@), ..w }),
            merged_entities(w.entities, k, a, now@) == rows(world.entities@).take(i as int)
                + merged_entities(rows(world.entities@).skip(i as int), k, a, now@),
        decreases world.entities.len() - i,
    {
        let ghost cur = rows(world.entities@);
        let ghost head = cur.take(i as int);
        let ghost rest = cur.skip(i as int);
        assert(rest[0] == cur[i as int]);
        assert(rest.drop_first() =~= cur.skip(i + 1));
        let ghost done = merged_entities(rest.drop_first(), k, a, now@);
        if str_eq(world.entities[i].id.as_str(), absorb.id.as_str()) {
            world.entities.remove(i);
            assert(rows(world.entities@).take(i as int) =~= head);
            assert(rows(world.entities@).skip(i as int) =~= rest.drop_first());
        } else {
            if str_eq(world.entities[i].id.as_str(), keep.id.as_str()) {
                world.entities[i].aliases = json.clone();
                world.entities[i].confidence = keep.confidence.max(absorb.confidence);
                world.entities[i].last_seen = now.to_owned();
            }
            proof {
                let after = rows(world.entities@);
                assert forall|j: int| 0 <= j < cur.len() && j != i implies (#[trigger] after[j])
                    == cur[j] by {}
                assert(after.take(i + 1) =~= head.push(after[i as int]));
                assert(after.skip(i + 1) =~= rest.drop_first());
                assert(head + (seq![after[i as int]] + done) =~= head.push(after[i as int])
                    + done);
            }
            i += 1;
        }
    }
    assert(rows(world.entities@).skip(i as int) =~= seq![]);
    assert(rows(world.entities@).take(i as int) + Seq::<EntityModel>::empty() =~= rows(
        world.entities@,
    ));
}

/// Folds `absorb_id` into `keep_id` at the time `now`. Refuses outright if the pair was declared
/// distinct by a human.
pub fn merge_entities_at(world: &mut World, keep_id: &str, absorb_id: &str, now: &str) -> (r:
    Result<(), ResolveError>)
    ensures
        ({
            let w = old(world)@;
            let k = entity_of(w.entities, keep_id@);
            let a = entity_of(w.entities, absorb_id@);
            if keep_id@ == absorb_id@ {
                r == Err::<(), ResolveError>(ResolveError::SameEntity) && final(world)@ == w
            } else if has_pair(w.decorrelations, ordered(keep_id@, absorb_id@)) {
                &&& final(world)@ == w
                &&& r matches Err(ResolveError::Decorrelated { keep, absorb })
                &&& keep@ == keep_id@
                &&& absorb@ == absorb_id@
            } else if k is None || a is None {
                r == Err::<(), ResolveError>(ResolveError::MissingEntity) && final(world)@ == w
            } else {
                r is Ok && final(world)@ == merged(w, k->0, a->0, now@)
            }
        }),
        r is Ok ==> names_carried(old(world)@, final(world)@, keep_id@, absorb_id@),
{
    if str_eq(keep_id, absorb_id) {
        return Err(ResolveError::SameEntity);
    }
    if is_decorrelated(world, keep_id, absorb_id) {
        return Err(
            ResolveError::Decorrelated { keep: keep_id.to_owned(), absorb: absorb_id.to_owned() },
        );
    }
    let (keep, absorb) = match (
        find_entity(&world.entities, keep_id),
        find_entity(&world.entities, absorb_id),
    ) {
        (Some(i), Some(j)) => (world.entities[i].dup(), world.entities[j].dup()),
        _ => {
            return Err(ResolveError::MissingEntity);
        },
    };
    let aliases = join_aliases(&keep, &absorb);
    repoint_edges(world, keep_id, absorb_id);
    repoint_candidates(world, keep_id, absorb_id);
    fold_entities(world, &keep, &absorb, &aliases, now);
    index_entity(world, keep_id, keep.canonical_name.as_str(), aliases.as_slice());
    proof {
        let w = old(world)@;
        let after = world@;
        assert forall|i: int, name: Seq<char>|
            #![trigger after.entities[i], listed(keep@.aliases).contains(name)]
            #![trigger after.entities[i], listed(absorb@.aliases).contains(name)]
            #![trigger listed(after.entities[i].aliases).contains(name)]
            0 <= i < after.entities.len() && after.entities[i].id == keep_id@ implies (listed(
            after.entities[i].aliases,
        ).contains(name) <==> listed(keep@.aliases).contains(name) || listed(
            absorb@.aliases,
        ).contains(name) || (name == absorb@.canonical_name && name != keep@.canonical_name)) by {
            assert(after.entities.contains(after.entities[i]));
            law_merge_is_exact(w, keep@, absorb@, now@, after.entities[i]);
            law_merge_carries_every_name(keep@, absorb@, name);
        }
    }
    Ok(())
}

/// The merge that the decorrelation guard protects: folds `absorb_id` into `keep_id` (edges
/// repointed, aliases and candidates carried over, the absorbed entity deleted). Refuses
/// outright if this exact pair was previously decorrelated by a human.
pub fn merge_entities(world: &mut World, keep_id: &str, absorb_id: &str) -> (r: Result<
    (),
    ResolveError,
>)
    ensures
        ({
            let w = old(world)@;
            let k = entity_of(w.entities, keep_id@);
            let a = entity_of(w.entities, absorb_id@);
            if keep_id@ == absorb_id@ {
                r == Err::<(), ResolveError>(ResolveError::SameEntity) && final(world)@ == w
            } else if has_pair(w.decorrelations, ordered(keep_id@, absorb_id@)) {
                &&& final(world)@ == w
                &&& r matches Err(ResolveError::Decorrelated { keep, absorb })
                &&& keep@ == keep_id@
                &&& absorb@ == absorb_id@
            } else if k is None || a is None {
                r == Err::<(), ResolveError>(ResolveError::MissingEntity) && final(world)@ == w
            } else {
                r is Ok && exists|now: Seq<char>|
                    is_instant(now) && final(world)@ == #[trigger] merged(w, k->0, a->0, now)
            }
        }),
        r is Ok ==> names_carried(old(world)@, final(world)@, keep_id@, absorb_id@),
{
    let t = crate::models::now();
    merge_entities_at(world, keep_id, absorb_id, t.as_str())
}

/// After a merge the absorbed entity is gone, and no relation and no mention points to it.
pub proof fn law_merge_leaves_no_trace(
    w: WorldModel,
    keep: EntityModel,
    absorb: EntityModel,
    now: Seq<char>,
)
    requires
        keep.id != absorb.id,
    ensures
        forall|i: int|
            0 <= i < merged(w, keep, absorb, now).edges.len() ==> (#[trigger] merged(
                w,
                keep,
                absorb,
                now,
            ).edges[i]).from_id != absorb.id && merged(w, keep, absorb, now).edges[i].to_id
                != absorb.id,
        forall|i: int|
            0 <= i < merged(w, keep, absorb, now).candidates.len() ==> (#[trigger] merged(
                w,
                keep,
                absorb,
                now,
            ).candidates[i]).best_match_entity_id != Some(absorb.id),
        forall|i: int|
            0 <= i < merged(w, keep, absorb, now).entities.len() ==> (#[trigger] merged(
                w,
                keep,
                absorb,
                now,
            ).entities[i]).id != absorb.id,
        merged(w, keep, absorb, now).decorrelations == w.decorrelations,
{
    lemma_merged_entities(w.entities, keep, absorb, now);
}

proof fn lemma_merged_entities(
    es: Seq<EntityModel>,
    keep: EntityModel,
    absorb: EntityModel,
    now: Seq<char>,
)
    ensures
        forall|i: int|
            0 <= i < merged_entities(es, keep, absorb, now).len() ==> (#[trigger] merged_entities(
                es,
                keep,
                absorb,
                now,
            )[i]).id != absorb.id,
    decreases es.len(),
{
    if es.len() > 0 {
        lemma_merged_entities(es.drop_first(), keep, absorb, now);
        let rest = merged_entities(es.drop_first(), keep, absorb, now);
        let all = merged_entities(es, keep, absorb, now);
        assert forall|i: int| 0 <= i < all.len() implies (#[trigger] all[i]).id != absorb.id by {
            if es[0].id == absorb.id {
                assert(all[i] == rest[i]);
            } else if i > 0 {
                assert(all[i] == rest[i - 1]);
            }
        }
    }
}

// ---------------------------------------------------------------------------------------------
// Relations

/// Whether a relation type allows its subject (`from`) only one valid object at a time, and its
/// object (`to`) only one valid subject.
pub open spec fn exclusive(edge_type: Seq<char>) -> (bool, bool) {
    let t = edge_type;
    if t == "ceo_of"@ || t == "cfo_of"@ || t == "cto_of"@ || t == "coo_of"@ || t == "chairman_of"@
        || t == "president_of"@ {
        (true, true)
    } else if t == "headquartered_in"@ || t == "based_in"@ || t == "owned_by"@ || t
        == "acquired_by"@ {
        (true, false)
    } else if t == "parent_of"@ {
        (false, true)
    } else {
        (false, false)
    }
}

pub fn exclusivity(edge_type: &str) -> (r: (bool, bool))
    ensures
        r == exclusive(edge_type@),
{
    if str_eq(edge_type, "ceo_of") || str_eq(edge_type, "cfo_of") || str_eq(edge_type, "cto_of")
        || str_eq(edge_type, "coo_of") || str_eq(edge_type, "chairman_of") || str_eq(
        edge_type,
        "president_of",
    ) {
        (true, true)
    } else if str_eq(edge_type, "headquartered_in") || str_eq(edge_type, "based_in") || str_eq(
        edge_type,
        "owned_by",
    ) || str_eq(edge_type, "acquired_by") {
        (true, false)
    } else if str_eq(edge_type, "parent_of") {
        (false, true)
    } else {
        (false, false)
    }
}

/// The edge states the relation; being mentioned together has no direction.
pub open spec fn states(e: EdgeModel, a: Seq<char>, b: Seq<char>, edge_type: Seq<char>) -> bool {
    &&& e.edge_type == edge_type
    &&& (e.from_id == a && e.to_id == b) || (edge_type == "mentioned_with"@ && e.from_id == b
        && e.to_id == a)
}

/// The position of the first edge that states the relation, the number of edges if none does.
pub open spec fn stated_at(
    es: Seq<EdgeModel>,
    a: Seq<char>,
    b: Seq<char>,
    edge_type: Seq<char>,
) -> int
    decreases es.len(),
{
    if es.len() == 0 {
        0
    } else if states(es[0], a, b, edge_type) {
        0
    } else {
        1 + stated_at(es.drop_first(), a, b, edge_type)
    }
}

pub proof fn lemma_stated_at(es: Seq<EdgeModel>, a: Seq<char>, b: Seq<char>, edge_type: Seq<char>)
    ensures
        0 <= stated_at(es, a, b, edge_type) <= es.len(),
        stated_at(es, a, b, edge_type) < es.len() ==> states(
            es[stated_at(es, a, b, edge_type)],
            a,
            b,
            edge_type,
        ),
        forall|i: int|
            0 <= i < stated_at(es, a, b, edge_type) ==> !states(#[trigger] es[i], a, b, edge_type),
    decreases es.len(),
{
    if es.len() > 0 && !states(es[0], a, b, edge_type) {
        let rest = es.drop_first();
        lemma_stated_at(rest, a, b, edge_type);
        let n = stated_at(rest, a, b, edge_type);
        if n < rest.len() {
            assert(rest[n] == es[n + 1]);
        }
        assert forall|i: int| 0 <= i < n + 1 implies !states(#[trigger] es[i], a, b, edge_type) by {
            if i > 0 {
                assert(rest[i - 1] == es[i]);
            }
        }
    }
}

/// `x` is not later than `y`.
pub open spec fn not_after(x: Seq<char>, y: Seq<char>) -> bool {
    !before(y, x)
}

/// The earlier of the time an edge is valid from and the time of an observation.
pub open spec fn earliest(valid_at: Option<Seq<char>>, observed_at: Seq<char>) -> Seq<char> {
    match valid_at {
        Some(v) => if not_after(v, observed_at) {
            v
        } else {
            observed_at
        },
        None => observed_at,
    }
}

pub open spec fn with_source(ids: Seq<Seq<char>>, id: Seq<char>) -> Seq<Seq<char>> {
    if ids.contains(id) {
        ids
    } else {
        ids.push(id)
    }
}

/// One more observation, as far as the counter reaches.
pub open spec fn bumped(weight: u64) -> u64 {
    if weight < u64::MAX {
        (weight + 1) as u64
    } else {
        weight
    }
}

/// The edges after the relation of edge `e` was observed again: weight and sources accumulate,
/// and the earliest observation defines the valid time.
pub open spec fn observed_again(
    es: Seq<EdgeModel>,
    e: EdgeModel,
    source_item_id: Seq<char>,
    observed_at: Seq<char>,
    now: Seq<char>,
) -> Seq<EdgeModel> {
    Seq::new(
        es.len(),
        |i: int|
            if es[i].id == e.id {
                EdgeModel {
                    weight: bumped(es[i].weight),
                    source_item_ids: printed_list(
                        with_source(listed(e.source_item_ids), source_item_id),
                    ),
                    last_seen: now,
                    valid_at: Some(earliest(e.valid_at, observed_at)),
                    ..es[i]
                }
            } else {
                es[i]
            },
    )
}

/// The entity that the edge has on the given side.
pub open spec fn side(e: EdgeModel, from_side: bool) -> Seq<char> {
    if from_side {
        e.from_id
    } else {
        e.to_id
    }
}

/// The edge is valid and of the type, and has the entity on the given side.
pub open spec fn rivals(
    e: EdgeModel,
    edge_type: Seq<char>,
    from_side: bool,
    key: Seq<char>,
) -> bool {
    e.edge_type == edge_type && side(e, from_side) == key && e.invalid_at is None
}

/// Since when the edge is valid; the empty text, which is before all times, where that is open.
pub open spec fn valid_from(e: EdgeModel) -> Seq<char> {
    match e.valid_at {
        Some(v) => v,
        None => seq![],
    }
}

/// The edges after a new fact on the given side: it supersedes the rivals that are not newer.
pub open spec fn superseded(
    es: Seq<EdgeModel>,
    edge_type: Seq<char>,
    from_side: bool,
    key: Seq<char>,
    new_id: Seq<char>,
    observed_at: Seq<char>,
) -> Seq<EdgeModel> {
    Seq::new(
        es.len(),
        |i: int|
            if rivals(es[i], edge_type, from_side, key) && not_after(
                valid_from(es[i]),
                observed_at,
            ) {
                EdgeModel {
                    invalid_at: Some(observed_at),
                    superseded_by: Some(new_id),
                    ..es[i]
                }
            } else {
                es[i]
            },
    )
}

/// The earliest rival that is newer than the observation, with its valid time, where one is
/// earlier than what `known` holds.
pub open spec fn newer_rival(
    known: Option<(Seq<char>, Seq<char>)>,
    es: Seq<EdgeModel>,
    edge_type: Seq<char>,
    from_side: bool,
    key: Seq<char>,
    observed_at: Seq<char>,
) -> Option<(Seq<char>, Seq<char>)>
    decreases es.len(),
{
    if es.len() == 0 {
        known
    } else {
        let r = newer_rival(known, es.drop_last(), edge_type, from_side, key, observed_at);
        let e = es.last();
        if rivals(e, edge_type, from_side, key) && before(observed_at, valid_from(e)) && match r {
            Some((v, _)) => before(valid_from(e), v),
            None => true,
        } {
            Some((valid_from(e), e.id))
        } else {
            r
        }
    }
}

/// The row of a fact that was just observed, already superseded where a newer rival is known.
pub open spec fn edge_row(
    a: Seq<char>,
    b: Seq<char>,
    edge_type: Seq<char>,
    source_item_id: Seq<char>,
    observed_at: Seq<char>,
    rival: Option<(Seq<char>, Seq<char>)>,
    s: StampModel,
) -> EdgeModel {
    EdgeModel {
        id: s.id,
        from_id: a,
        to_id: b,
        edge_type,
        weight: 1,
        metadata: "{}"@,
        source_item_ids: printed_list(seq![source_item_id]),
        first_seen: s.now,
        last_seen: s.now,
        valid_at: Some(observed_at),
        invalid_at: match rival {
            Some((v, _)) => Some(v),
            None => None,
        },
        superseded_by: match rival {
            Some((_, id)) => Some(id),
            None => None,
        },
    }
}

/// The edges after both sides of a new fact were settled against their rivals, and what is known
/// of a newer rival.
pub open spec fn settled(
    es: Seq<EdgeModel>,
    a: Seq<char>,
    b: Seq<char>,
    edge_type: Seq<char>,
    new_id: Seq<char>,
    observed_at: Seq<char>,
) -> (Seq<EdgeModel>, Option<(Seq<char>, Seq<char>)>) {
    let (from_excl, to_excl) = exclusive(edge_type);
    let (es1, r1) = if from_excl {
        (
            superseded(es, edge_type, true, a, new_id, observed_at),
            newer_rival(None, es, edge_type, true, a, observed_at),
        )
    } else {
        (es, None)
    };
    if to_excl {
        (
            superseded(es1, edge_type, false, b, new_id, observed_at),
            newer_rival(r1, es1, edge_type, false, b, observed_at),
        )
    } else {
        (es1, r1)
    }
}

/// The edges after a relation was observed.
pub open spec fn linked(
    es: Seq<EdgeModel>,
    a: Seq<char>,
    b: Seq<char>,
    edge_type: Seq<char>,
    source_item_id: Seq<char>,
    observed_at: Seq<char>,
    s: StampModel,
) -> Seq<EdgeModel> {
    let at = stated_at(es, a, b, edge_type);
    if a == b {
        es
    } else if 0 <= at < es.len() {
        observed_again(es, es[at], source_item_id, observed_at, s.now)
    } else {
        let (es2, rival) = settled(es, a, b, edge_type, s.id, observed_at);
        es2.push(edge_row(a, b, edge_type, source_item_id, observed_at, rival, s))
    }
}

fn find_stated(es: &Vec<WmEdge>, a: &str, b: &str, edge_type: &str) -> (r: Option<usize>)
    ensures
        match r {
            Some(i) => i < es@.len() && i == stated_at(rows(es@), a@, b@, edge_type@),
            None => stated_at(rows(es@), a@, b@, edge_type@) == es@.len(),
        },
{
    let symmetric = str_eq(edge_type, "mentioned_with");
    let ghost all = rows(es@);
    let mut i: usize = 0;
    assert(all.skip(0) =~= all);
    while i < es.len()
        invariant
            i <= es@.len(),
            all == rows(es@),
            symmetric == (edge_type@ == "mentioned_with"@),
            stated_at(all, a@, b@, edge_type@) == i + stated_at(
                all.skip(i as int),
                a@,
                b@,
                edge_type@,
            ),
        decreases es.len() - i,
    {
        assert(all.skip(i as int)[0] == es@[i as int]@);
        assert(all.skip(i as int).drop_first() =~= all.skip(i + 1));
        let e = &es[i];
        if str_eq(e.edge_type.as_str(), edge_type) && ((str_eq(e.from_id.as_str(), a) && str_eq(
            e.to_id.as_str(),
            b,
        )) || (symmetric && str_eq(e.from_id.as_str(), b) && str_eq(e.to_id.as_str(), a))) {
            return Some(i);
        }
        i += 1;
    }
    None
}

fn observe_again(
    world: &mut World,
    at: usize,
    source_item_id: &str,
    observed_at: &str,
    now: &str,
)
    requires
        at < old(world).edges@.len(),
    ensures
        final(world)@ == (WorldModel {
            edges: observed_again(
                old(world)@.edges,
                old(world)@.edges[at as int],
                source_item_id@,
                observed_at@,
                now@,
            ),
            ..old(world)@
        }),
{
    let e = world.edges[at].dup();
    let mut ids = e.source_ids();
    if !list_has(&ids, source_item_id) {
        let ghost had = views(ids@);
        ids.push(source_item_id.to_owned());
        assert(views(ids@) =~= had.push(source_item_id@));
    }
    let json = print_list(&ids);
    let valid = match &e.valid_at {
        Some(v) => {
            if !str_before(observed_at, v.as_str()) {
                v.clone()
            } else {
                observed_at.to_owned()
            }
        },
        None => observed_at.to_owned(),
    };
    let ghost w = world@;
    let ghost goal = observed_again(w.edges, e@, source_item_id@, observed_at@, now@);
    let mut i: usize = 0;
    while i < world.edges.len()
        invariant
            i <= world.edges@.len(),
            world.edges@.len() == w.edges.len(),
            json@ == printed_list(with_source(listed(e@.source_item_ids), source_item_id@)),
            valid@ == earliest(e@.valid_at, observed_at@),
            goal == observed_again(w.edges, e@, source_item_id@, observed_at@, now@),
            world@ == (WorldModel { edges: rows(world.edges@), ..w }),
            forall|j: int| 0 <= j < i ==> (#[trigger] rows(world.edges@)[j]) == goal[j],
            forall|j: int|
                i <= j < w.edges.len() ==> (#[trigger] rows(world.edges@)[j]) == w.edges[j],
        decreases world.edges.len() - i,
    {
        let ghost cur = rows(world.edges@);
        assert(cur[i as int] == w.edges[i as int]);
        if str_eq(world.edges[i].id.as_str(), e.id.as_str()) {
            if world.edges[i].weight < u64::MAX {
                let n: u64 = world.edges[i].weight + 1;
                world.edges[i].weight = n;
            }
            world.edges[i].source_item_ids = json.clone();
            world.edges[i].last_seen = now.to_owned();
            world.edges[i].valid_at = Some(valid.clone());
        }
        assert forall|j: int| 0 <= j < cur.len() && j != i implies (#[trigger] rows(
            world.edges@,
        )[j]) == cur[j] by {}
        assert(rows(world.edges@)[i as int] == goal[i as int]);
        i += 1;
    }
    assert(rows(world.edges@) =~= goal);
}

/// What a known newer rival holds.
pub open spec fn rival_view(o: Option<(String, String)>) -> Option<(Seq<char>, Seq<char>)> {
    match o {
        Some((v, id)) => Some((v@, id@)),
        None => None,
    }
}

/// Settles a new fact against its rivals on one side.
fn settle(
    world: &mut World,
    known: Option<(String, String)>,
    edge_type: &str,
    from_side: bool,
    key: &str,
    new_id: &str,
    observed_at: &str,
) -> (r: Option<(String, String)>)
    ensures
        final(world)@ == (WorldModel {
            edges: superseded(
                old(world)@.edges,
                edge_type@,
                from_side,
                key@,
                new_id@,
                observed_at@,
            ),
            ..old(world)@
        }),
        rival_view(r) == newer_rival(
            rival_view(known),
            old(world)@.edges,
            edge_type@,
            from_side,
            key@,
            observed_at@,
        ),
{
    let ghost w = world@;
    let ghost goal = superseded(w.edges, edge_type@, from_side, key@, new_id@, observed_at@);
    let ghost start = rival_view(known);
    let mut best = known;
    let mut i: usize = 0;
    assert(w.edges.take(0) =~= seq![]);
    while i < world.edges.len()
        invariant
            i <= world.edges@.len(),
            world.edges@.len() == w.edges.len(),
            goal == superseded(w.edges, edge_type@, from_side, key@, new_id@, observed_at@),
            rival_view(best) == newer_rival(
                start,
                w.edges.take(i as int),
                edge_type@,
                from_side,
                key@,
                observed_at@,
            ),
            world@ == (WorldModel { edges: rows(world.edges@), ..w }),
            forall|j: int| 0 <= j < i ==> (#[trigger] rows(world.edges@)[j]) == goal[j],
            forall|j: int|
                i <= j < w.edges.len() ==> (#[trigger] rows(world.edges@)[j]) == w.edges[j],
        decreases world.edges.len() - i,
    {
        let ghost cur = rows(world.edges@);
        assert(w.edges.take(i + 1).drop_last() =~= w.edges.take(i as int));
        assert(w.edges.take(i + 1).last() == w.edges[i as int]);
        assert(cur[i as int] == w.edges[i as int]);
        let on_side = if from_side {
            str_eq(world.edges[i].from_id.as_str(), key)
        } else {
            str_eq(world.edges[i].to_id.as_str(), key)
        };
        if on_side && str_eq(world.edges[i].edge_type.as_str(), edge_type)
            && world.edges[i].invalid_at.is_none() {
            let valid = match &world.edges[i].valid_at {
                Some(v) => v.clone(),
                None => {
                    let v = String::new();
                    assert(v@ =~= Seq::<char>::empty());
                    v
                },
            };
            if !str_before(observed_at, valid.as_str()) {
                world.edges[i].invalid_at = Some(observed_at.to_owned());
                world.edges[i].superseded_by = Some(new_id.to_owned());
            } else {
                let earlier = match &best {
                    Some((v, _)) => str_before(valid.as_str(), v.as_str()),
                    None => true,
                };
                if earlier {
                    best = Some((valid, world.edges[i].id.clone()));
                }
            }
        }
        assert forall|j: int| 0 <= j < cur.len() && j != i implies (#[trigger] rows(
            world.edges@,
        )[j]) == cur[j] by {}
        assert(rows(world.edges@)[i as int] == goal[i as int]);
        i += 1;
    }
    assert(w.edges.take(i as int) =~= w.edges);
    assert(rows(world.edges@) =~= goal);
    best
}

/// Records a relation under the given stamp.
pub fn link_entities_typed_as(
    world: &mut World,
    a: &str,
    b: &str,
    edge_type: &str,
    source_item_id: &str,
    observed_at: &str,
    s: &Stamp,
)
    ensures
        final(world)@ == (WorldModel {
            edges: linked(
                old(world)@.edges,
                a@,
                b@,
                edge_type@,
                source_item_id@,
                observed_at@,
                s@,
            ),
            ..old(world)@
        }),
{
    if str_eq(a, b) {
        return;
    }
    if let Some(at) = find_stated(&world.edges, a, b, edge_type) {
        observe_again(world, at, source_item_id, observed_at, s.now.as_str());
        return;
    }
    assert(world@.edges.len() == world.edges@.len());
    let (from_excl, to_excl) = exclusivity(edge_type);
    let mut rival: Option<(String, String)> = None;
    if from_excl {
        rival = settle(world, rival, edge_type, true, a, s.id.as_str(), observed_at);
    }
    if to_excl {
        rival = settle(world, rival, edge_type, false, b, s.id.as_str(), observed_at);
    }
    let (invalid_at, superseded_by) = match rival {
        Some((v, id)) => (Some(v), Some(id)),
        None => (None, None),
    };
    let source: Vec<String> = vec![source_item_id.to_owned()];
    assert(views(source@) =~= seq![source_item_id@]);
    let row = WmEdge {
        id: s.id.clone(),
        from_id: a.to_owned(),
        to_id: b.to_owned(),
        edge_type: edge_type.to_owned(),
        weight: 1,
        metadata: "{}".to_owned(),
        source_item_ids: print_list(&source),
        first_seen: s.now.clone(),
        last_seen: s.now.clone(),
        valid_at: Some(observed_at.to_owned()),
        invalid_at,
        superseded_by,
    };
    let ghost rv = row@;
    let ghost es2 = world@.edges;
    world.edges.push(row);
    assert(rows(world.edges@) =~= es2.push(rv));
}

/// Records a relation observed in `source_item_id`, valid from `observed_at` (the source's
/// publication time). Repeat observations accumulate weight and sources; the earliest
/// observation defines `valid_at`. For exclusive relation types, a newer contradicting fact
/// invalidates older ones; an older fact arriving late is inserted already superseded.
pub fn link_entities_typed(
    world: &mut World,
    a: &str,
    b: &str,
    edge_type: &str,
    source_item_id: &str,
    observed_at: &str,
)
    ensures
        exists|s: StampModel|
            is_stamp(s) && final(world)@ == (WorldModel {
                edges: #[trigger] linked(
                    old(world)@.edges,
                    a@,
                    b@,
                    edge_type@,
                    source_item_id@,
                    observed_at@,
                    s,
                ),
                ..old(world)@
            }),
{
    let s = stamp();
    link_entities_typed_as(world, a, b, edge_type, source_item_id, observed_at, &s);
}

/// Two valid edges of one exclusive type hold the same exclusive place.
pub open spec fn contradict(e: EdgeModel, f: EdgeModel) -> bool {
    let (from_excl, to_excl) = exclusive(e.edge_type);
    &&& e.edge_type == f.edge_type
    &&& e.invalid_at is None
    &&& f.invalid_at is None
    &&& (from_excl && e.from_id == f.from_id) || (to_excl && e.to_id == f.to_id)
}

/// No two valid edges contradict each other.
pub open spec fn consistent(es: Seq<EdgeModel>) -> bool {
    forall|i: int, j: int| 0 <= i < j < es.len() ==> !contradict(#[trigger] es[i], #[trigger] es[j])
}

proof fn lemma_newer_rival(
    known: Option<(Seq<char>, Seq<char>)>,
    es: Seq<EdgeModel>,
    edge_type: Seq<char>,
    from_side: bool,
    key: Seq<char>,
    observed_at: Seq<char>,
)
    ensures
        known is Some ==> newer_rival(known, es, edge_type, from_side, key, observed_at) is Some,
        forall|i: int|
            0 <= i < es.len() && rivals(#[trigger] es[i], edge_type, from_side, key) && before(
                observed_at,
                valid_from(es[i]),
            ) ==> newer_rival(known, es, edge_type, from_side, key, observed_at) is Some,
    decreases es.len(),
{
    if es.len() > 0 {
        let most = es.drop_last();
        lemma_newer_rival(known, most, edge_type, from_side, key, observed_at);
        assert forall|i: int|
            0 <= i < es.len() && rivals(#[trigger] es[i], edge_type, from_side, key) && before(
                observed_at,
                valid_from(es[i]),
            ) implies newer_rival(known, es, edge_type, from_side, key, observed_at) is Some by {
            if i < most.len() {
                assert(most[i] == es[i]);
            }
        }
    }
}

/// Recording a fact keeps the world consistent: of an exclusive relation, each place has at most
/// one valid holder at any time.
pub proof fn law_one_holder_at_a_time(
    es: Seq<EdgeModel>,
    a: Seq<char>,
    b: Seq<char>,
    edge_type: Seq<char>,
    source_item_id: Seq<char>,
    observed_at: Seq<char>,
    s: StampModel,
)
    requires
        consistent(es),
    ensures
        consistent(linked(es, a, b, edge_type, source_item_id, observed_at, s)),
{
    let after = linked(es, a, b, edge_type, source_item_id, observed_at, s);
    let at = stated_at(es, a, b, edge_type);
    if a == b {
    } else if 0 <= at < es.len() {
        assert forall|i: int, j: int| 0 <= i < j < after.len() implies !contradict(
            #[trigger] after[i],
            #[trigger] after[j],
        ) by {
            assert(!contradict(es[i], es[j]));
        }
    } else {
        let (from_excl, to_excl) = exclusive(edge_type);
        let es1 = if from_excl {
            superseded(es, edge_type, true, a, s.id, observed_at)
        } else {
            es
        };
        let r1 = newer_rival(None, es, edge_type, true, a, observed_at);
        let known: Option<(Seq<char>, Seq<char>)> = if from_excl {
            r1
        } else {
            None
        };
        lemma_newer_rival(None, es, edge_type, true, a, observed_at);
        lemma_newer_rival(known, es1, edge_type, false, b, observed_at);
        let (es2, rival) = settled(es, a, b, edge_type, s.id, observed_at);
        let row = edge_row(a, b, edge_type, source_item_id, observed_at, rival, s);
        assert(after == es2.push(row));
        assert forall|i: int, j: int| 0 <= i < j < after.len() implies !contradict(
            #[trigger] after[i],
            #[trigger] after[j],
        ) by {
            if j < es.len() {
                assert(!contradict(es[i], es[j]));
            } else {
                assert(after[j] == row);
                assert(after[i] == es2[i]);
                if contradict(es2[i], row) {
                    assert(es2[i].edge_type == es[i].edge_type);
                    assert(es[i].invalid_at is None);
                    assert(es1[i].invalid_at is None);
                    if from_excl && es[i].from_id == a {
                        assert(rivals(es[i], edge_type, true, a));
                        assert(false);
                    } else {
                        assert(rivals(es1[i], edge_type, false, b));
                        assert(false);
                    }
                }
            }
        }
    }
}

/// Recording a fact never rewrites history: an edge that was superseded keeps its window, and a
/// valid edge that is newer than the fact stays valid.
pub proof fn law_history_is_kept(
    es: Seq<EdgeModel>,
    a: Seq<char>,
    b: Seq<char>,
    edge_type: Seq<char>,
    source_item_id: Seq<char>,
    observed_at: Seq<char>,
    s: StampModel,
    i: int,
)
    requires
        0 <= i < es.len(),
    ensures
        ({
            let after = linked(es, a, b, edge_type, source_item_id, observed_at, s);
            &&& i < after.len()
            &&& after[i].id == es[i].id
            &&& after[i].from_id == es[i].from_id
            &&& after[i].to_id == es[i].to_id
            &&& after[i].edge_type == es[i].edge_type
            &&& es[i].invalid_at is Some ==> after[i].invalid_at == es[i].invalid_at
                && after[i].superseded_by == es[i].superseded_by
            &&& es[i].invalid_at is None && before(observed_at, valid_from(es[i]))
                ==> after[i].invalid_at is None
            &&& es[i].invalid_at is None && after[i].invalid_at is Some ==> after[i].invalid_at
                == Some(observed_at) && after[i].superseded_by == Some(s.id)
        }),
{
}

/// The valid time of a relation only ever moves back, to the earliest observation.
pub proof fn law_valid_time_is_earliest(
    es: Seq<EdgeModel>,
    a: Seq<char>,
    b: Seq<char>,
    edge_type: Seq<char>,
    source_item_id: Seq<char>,
    observed_at: Seq<char>,
    s: StampModel,
)
    requires
        a != b,
    ensures
        ({
            let at = stated_at(es, a, b, edge_type);
            let after = linked(es, a, b, edge_type, source_item_id, observed_at, s);
            &&& 0 <= at < after.len()
            &&& states(after[at], a, b, edge_type)
            &&& after[at].valid_at matches Some(v) && not_after(v, observed_at)
            &&& at < es.len() ==> match es[at].valid_at {
                Some(v) => not_after(after[at].valid_at->0, v),
                None => true,
            }
        }),
{
    let at = stated_at(es, a, b, edge_type);
    lemma_stated_at(es, a, b, edge_type);
    crate::text::lemma_before_irreflexive(observed_at);
    if at < es.len() {
        if let Some(v) = es[at].valid_at {
            crate::text::lemma_before_irreflexive(v);
            crate::text::lemma_before_total(v, observed_at);
            if before(observed_at, v) && before(v, observed_at) {
                crate::text::lemma_before_transitive(v, observed_at, v);
            }
        }
    } else {
        let (es2, rival) = settled(es, a, b, edge_type, s.id, observed_at);
        assert(es2.len() == es.len());
    }
}

/// The edge is valid and holds a place that the relation would hold exclusively.
pub open spec fn contends(e: EdgeModel, a: Seq<char>, b: Seq<char>, edge_type: Seq<char>) -> bool {
    let (from_excl, to_excl) = exclusive(edge_type);
    (from_excl && rivals(e, edge_type, true, a)) || (to_excl && rivals(e, edge_type, false, b))
}

/// No edge states the relation, and none that contends with it is later than the given time.
pub open spec fn uncontested(
    es: Seq<EdgeModel>,
    a: Seq<char>,
    b: Seq<char>,
    edge_type: Seq<char>,
    time: Seq<char>,
) -> bool {
    forall|i: int|
        0 <= i < es.len() ==> !states(#[trigger] es[i], a, b, edge_type) && (contends(
            es[i],
            a,
            b,
            edge_type,
        ) ==> not_after(valid_from(es[i]), time))
}

proof fn lemma_no_newer_rival(
    known: Option<(Seq<char>, Seq<char>)>,
    es: Seq<EdgeModel>,
    edge_type: Seq<char>,
    from_side: bool,
    key: Seq<char>,
    time: Seq<char>,
)
    requires
        forall|i: int|
            0 <= i < es.len() && rivals(#[trigger] es[i], edge_type, from_side, key) ==> not_after(
                valid_from(es[i]),
                time,
            ),
    ensures
        newer_rival(known, es, edge_type, from_side, key, time) == known,
    decreases es.len(),
{
    if es.len() > 0 {
        let most = es.drop_last();
        assert forall|i: int|
            0 <= i < most.len() && rivals(
                #[trigger] most[i],
                edge_type,
                from_side,
                key,
            ) implies not_after(valid_from(most[i]), time) by {
            assert(most[i] == es[i]);
        }
        lemma_no_newer_rival(known, most, edge_type, from_side, key, time);
        assert(es.last() == es[es.len() - 1]);
    }
}

proof fn lemma_not_stated(es: Seq<EdgeModel>, a: Seq<char>, b: Seq<char>, edge_type: Seq<char>)
    requires
        forall|i: int| 0 <= i < es.len() ==> !states(#[trigger] es[i], a, b, edge_type),
    ensures
        stated_at(es, a, b, edge_type) == es.len(),
{
    lemma_stated_at(es, a, b, edge_type);
}

/// Settling a fact changes other edges only by ending some that are valid.
proof fn lemma_settled_frame(
    es: Seq<EdgeModel>,
    a: Seq<char>,
    b: Seq<char>,
    edge_type: Seq<char>,
    id: Seq<char>,
    time: Seq<char>,
)
    ensures
        ({
            let after = settled(es, a, b, edge_type, id, time).0;
            &&& after.len() == es.len()
            &&& forall|i: int|
                0 <= i < es.len() ==> {
                    &&& (#[trigger] after[i]).from_id == es[i].from_id
                    &&& after[i].to_id == es[i].to_id
                    &&& after[i].edge_type == es[i].edge_type
                    &&& after[i].valid_at == es[i].valid_at
                    &&& after[i].invalid_at is None ==> after[i] == es[i]
                }
        }),
{
}

/// A fact that nothing later contends with is stored as valid.
proof fn lemma_uncontested_fact(
    es: Seq<EdgeModel>,
    a: Seq<char>,
    b: Seq<char>,
    edge_type: Seq<char>,
    source: Seq<char>,
    time: Seq<char>,
    s: StampModel,
)
    requires
        a != b,
        uncontested(es, a, b, edge_type, time),
    ensures
        linked(es, a, b, edge_type, source, time, s) == settled(
            es,
            a,
            b,
            edge_type,
            s.id,
            time,
        ).0.push(edge_row(a, b, edge_type, source, time, None, s)),
{
    let (from_excl, to_excl) = exclusive(edge_type);
    lemma_not_stated(es, a, b, edge_type);
    if from_excl {
        assert forall|i: int| 0 <= i < es.len() && rivals(#[trigger] es[i], edge_type, true, a)
            implies not_after(valid_from(es[i]), time) by {
            assert(contends(es[i], a, b, edge_type));
        }
        lemma_no_newer_rival(None, es, edge_type, true, a, time);
    }
    let es1 = if from_excl {
        superseded(es, edge_type, true, a, s.id, time)
    } else {
        es
    };
    if to_excl {
        assert forall|i: int| 0 <= i < es1.len() && rivals(#[trigger] es1[i], edge_type, false, b)
            implies not_after(valid_from(es1[i]), time) by {
            assert(es1[i] == es[i]);
            assert(contends(es[i], a, b, edge_type));
        }
        lemma_no_newer_rival(None, es1, edge_type, false, b, time);
    }
}

/// A fact whose only later contender is the last edge is stored as superseded by that one.
proof fn lemma_late_fact(
    es: Seq<EdgeModel>,
    a: Seq<char>,
    b: Seq<char>,
    edge_type: Seq<char>,
    source: Seq<char>,
    time: Seq<char>,
    s: StampModel,
)
    requires
        a != b,
        es.len() > 0,
        uncontested(es.drop_last(), a, b, edge_type, time),
        !states(es.last(), a, b, edge_type),
        contends(es.last(), a, b, edge_type),
        es.last().from_id != a || es.last().to_id != b,
        before(time, valid_from(es.last())),
    ensures
        ({
            let after = linked(es, a, b, edge_type, source, time, s);
            &&& after.len() == es.len() + 1
            &&& after[es.len() - 1] == es.last()
            &&& after[es.len() as int] == edge_row(
                a,
                b,
                edge_type,
                source,
                time,
                Some((valid_from(es.last()), es.last().id)),
                s,
            )
        }),
{
    let (from_excl, to_excl) = exclusive(edge_type);
    let most = es.drop_last();
    assert forall|i: int| 0 <= i < es.len() implies !states(#[trigger] es[i], a, b, edge_type) by {
        if i < most.len() {
            assert(most[i] == es[i]);
        }
    }
    lemma_not_stated(es, a, b, edge_type);
    assert forall|i: int|
        0 <= i < most.len() && from_excl && rivals(
            #[trigger] most[i],
            edge_type,
            true,
            a,
        ) implies not_after(valid_from(most[i]), time) by {
        assert(contends(most[i], a, b, edge_type));
    }
    if from_excl {
        lemma_no_newer_rival(None, most, edge_type, true, a, time);
    }
    let es1 = if from_excl {
        superseded(es, edge_type, true, a, s.id, time)
    } else {
        es
    };
    let r1 = if from_excl {
        newer_rival(None, es, edge_type, true, a, time)
    } else {
        None
    };
    assert(es1.last() == es.last());
    let most1 = es1.drop_last();
    if to_excl {
        assert forall|i: int|
            0 <= i < most1.len() && rivals(#[trigger] most1[i], edge_type, false, b)
            implies not_after(valid_from(most1[i]), time) by {
            assert(most1[i] == es1[i]);
            assert(es1[i] == es[i]);
            assert(most[i] == es[i]);
            assert(contends(most[i], a, b, edge_type));
        }
        lemma_no_newer_rival(r1, most1, edge_type, false, b, time);
    }
}

proof fn lemma_earliest_rival(
    known: Option<(Seq<char>, Seq<char>)>,
    es: Seq<EdgeModel>,
    edge_type: Seq<char>,
    from_side: bool,
    key: Seq<char>,
    time: Seq<char>,
)
    requires
        known matches Some((k, _)) ==> before(time, k),
    ensures
        newer_rival(known, es, edge_type, from_side, key, time) matches Some((v, _)) ==> before(
            time,
            v,
        ),
        known matches Some((k, _)) ==> newer_rival(
            known,
            es,
            edge_type,
            from_side,
            key,
            time,
        ) matches Some((v, _)) && not_after(v, k),
        forall|i: int|
            0 <= i < es.len() && rivals(#[trigger] es[i], edge_type, from_side, key) && before(
                time,
                valid_from(es[i]),
            ) ==> (newer_rival(known, es, edge_type, from_side, key, time) matches Some((v, _))
                && not_after(v, valid_from(es[i]))),
    decreases es.len(),
{
    if let Some((k, _)) = known {
        crate::text::lemma_before_irreflexive(k);
    }
    if es.len() > 0 {
        let most = es.drop_last();
        lemma_earliest_rival(known, most, edge_type, from_side, key, time);
        let r = newer_rival(known, most, edge_type, from_side, key, time);
        let e = es.last();
        let x = valid_from(e);
        crate::text::lemma_before_irreflexive(x);
        if let Some((v, _)) = r {
            if let Some((k, _)) = known {
                if before(x, v) && before(k, x) {
                    crate::text::lemma_before_transitive(k, x, v);
                }
            }
        }
        assert forall|i: int|
            0 <= i < es.len() && rivals(#[trigger] es[i], edge_type, from_side, key) && before(
                time,
                valid_from(es[i]),
            ) implies (newer_rival(known, es, edge_type, from_side, key, time) matches Some((v, _))
            && not_after(v, valid_from(es[i]))) by {
            if i < most.len() {
                assert(most[i] == es[i]);
                let (v, _) = r->0;
                if before(x, v) && before(valid_from(es[i]), x) {
                    crate::text::lemma_before_transitive(valid_from(es[i]), x, v);
                }
            } else {
                assert(es[i] == e);
            }
        }
    }
}

/// A fact that becomes known after a later one contradicted it is stored already superseded: it
/// ends after it began, no later than any contender that is later begins, and that one stays as
/// it is.
pub proof fn law_late_fact_is_superseded(
    es: Seq<EdgeModel>,
    a: Seq<char>,
    b: Seq<char>,
    edge_type: Seq<char>,
    source: Seq<char>,
    time: Seq<char>,
    s: StampModel,
    i: int,
)
    requires
        a != b,
        forall|j: int| 0 <= j < es.len() ==> !states(#[trigger] es[j], a, b, edge_type),
        0 <= i < es.len(),
        contends(es[i], a, b, edge_type),
        before(time, valid_from(es[i])),
    ensures
        ({
            let after = linked(es, a, b, edge_type, source, time, s);
            &&& after.len() == es.len() + 1
            &&& after[i] == es[i]
            &&& after.last().valid_at == Some(time)
            &&& after.last().superseded_by is Some
            &&& after.last().invalid_at matches Some(v) && before(time, v) && not_after(
                v,
                valid_from(es[i]),
            )
        }),
{
    let (from_excl, to_excl) = exclusive(edge_type);
    lemma_not_stated(es, a, b, edge_type);
    lemma_earliest_rival(None, es, edge_type, true, a, time);
    let es1 = if from_excl {
        superseded(es, edge_type, true, a, s.id, time)
    } else {
        es
    };
    let r1 = if from_excl {
        newer_rival(None, es, edge_type, true, a, time)
    } else {
        None
    };
    assert(es1[i] == es[i]);
    lemma_earliest_rival(r1, es1, edge_type, false, b, time);
    if from_excl && rivals(es[i], edge_type, true, a) && to_excl {
        let (v, _) = r1->0;
        let (u, _) = newer_rival(r1, es1, edge_type, false, b, time)->0;
        if before(valid_from(es[i]), u) {
            crate::text::lemma_before_total(u, v);
            if before(u, v) {
                crate::text::lemma_before_transitive(valid_from(es[i]), u, v);
            }
        }
    }
}

/// The order in which two contradicting facts become known does not matter: the older one ends
/// where the newer one begins, and the newer one stays valid. This takes that neither was known,
/// and that nothing that contends with one of them is later than it.
pub proof fn law_arrival_order_is_irrelevant(
    es: Seq<EdgeModel>,
    old_fact: (Seq<char>, Seq<char>),
    new_fact: (Seq<char>, Seq<char>),
    edge_type: Seq<char>,
    old_time: Seq<char>,
    new_time: Seq<char>,
    old_source: Seq<char>,
    new_source: Seq<char>,
    s: StampModel,
    t: StampModel,
)
    requires
        old_fact.0 != old_fact.1,
        new_fact.0 != new_fact.1,
        old_fact != new_fact,
        (exclusive(edge_type).0 && old_fact.0 == new_fact.0) || (exclusive(edge_type).1
            && old_fact.1 == new_fact.1),
        before(old_time, new_time),
        uncontested(es, old_fact.0, old_fact.1, edge_type, old_time),
        uncontested(es, new_fact.0, new_fact.1, edge_type, new_time),
    ensures
        ({
            let n = es.len() as int;
            let in_order = linked(
                linked(es, old_fact.0, old_fact.1, edge_type, old_source, old_time, s),
                new_fact.0,
                new_fact.1,
                edge_type,
                new_source,
                new_time,
                t,
            );
            let late = linked(
                linked(es, new_fact.0, new_fact.1, edge_type, new_source, new_time, t),
                old_fact.0,
                old_fact.1,
                edge_type,
                old_source,
                old_time,
                s,
            );
            &&& in_order.len() == n + 2
            &&& late.len() == n + 2
            &&& in_order[n] == late[n + 1]
            &&& in_order[n + 1] == late[n]
            &&& (in_order[n].from_id, in_order[n].to_id) == old_fact
            &&& in_order[n].invalid_at == Some(new_time)
            &&& in_order[n].superseded_by == Some(t.id)
            &&& (in_order[n + 1].from_id, in_order[n + 1].to_id) == new_fact
            &&& in_order[n + 1].invalid_at is None
        }),
{
    let n = es.len() as int;
    let (a1, b1) = old_fact;
    let (a2, b2) = new_fact;
    assert(edge_type != "mentioned_with"@) by {
        lemma_mentions_are_not_exclusive();
    }
    crate::text::lemma_before_irreflexive(old_time);
    if before(new_time, old_time) {
        crate::text::lemma_before_transitive(old_time, new_time, old_time);
    }
    let row1 = edge_row(a1, b1, edge_type, old_source, old_time, None, s);
    let row2 = edge_row(a2, b2, edge_type, new_source, new_time, None, t);

    lemma_uncontested_fact(es, a1, b1, edge_type, old_source, old_time, s);
    lemma_settled_frame(es, a1, b1, edge_type, s.id, old_time);
    let after1 = settled(es, a1, b1, edge_type, s.id, old_time).0;
    let with1 = after1.push(row1);
    assert forall|i: int| 0 <= i < with1.len() implies !states(#[trigger] with1[i], a2, b2, edge_type)
        && (contends(with1[i], a2, b2, edge_type) ==> not_after(
        valid_from(with1[i]),
        new_time,
    )) by {
        if i < n {
            assert(with1[i] == after1[i]);
            assert(!states(es[i], a2, b2, edge_type));
        }
    }
    lemma_uncontested_fact(with1, a2, b2, edge_type, new_source, new_time, t);
    assert(contends(row1, a2, b2, edge_type));
    assert(with1[n] == row1);

    lemma_uncontested_fact(es, a2, b2, edge_type, new_source, new_time, t);
    lemma_settled_frame(es, a2, b2, edge_type, t.id, new_time);
    let after2 = settled(es, a2, b2, edge_type, t.id, new_time).0;
    let with2 = after2.push(row2);
    assert(with2.drop_last() =~= after2);
    assert forall|i: int| 0 <= i < after2.len() implies !states(
        #[trigger] after2[i],
        a1,
        b1,
        edge_type,
    ) && (contends(after2[i], a1, b1, edge_type) ==> not_after(
        valid_from(after2[i]),
        old_time,
    )) by {
        assert(!states(es[i], a1, b1, edge_type));
    }
    assert(contends(row2, a1, b1, edge_type));
    lemma_late_fact(with2, a1, b1, edge_type, old_source, old_time, s);
}

/// Being mentioned together is no exclusive relation.
proof fn lemma_mentions_are_not_exclusive()
    ensures
        exclusive("mentioned_with"@) == (false, false),
{
    reveal_strlit("mentioned_with");
    reveal_strlit("ceo_of");
    reveal_strlit("cfo_of");
    reveal_strlit("cto_of");
    reveal_strlit("coo_of");
    reveal_strlit("chairman_of");
    reveal_strlit("president_of");
    reveal_strlit("headquartered_in");
    reveal_strlit("based_in");
    reveal_strlit("owned_by");
    reveal_strlit("acquired_by");
    reveal_strlit("parent_of");
    assert("mentioned_with"@.len() == 14);
    assert("mentioned_with"@[0] == 'm');
}

// ---------------------------------------------------------------------------------------------
// Entities proposed by a language model

/// The aliases with the two names of a proposal, as far as they are new to the entity.
pub open spec fn proposed_aliases(e: EntityModel, mention: Seq<char>, name: Seq<char>) -> Seq<
    Seq<char>,
> {
    let a = listed(e.aliases);
    let b = if !a.contains(mention) && mention != e.canonical_name {
        a.push(mention)
    } else {
        a
    };
    if !b.contains(name) && name != e.canonical_name {
        b.push(name)
    } else {
        b
    }
}

/// A matched entity after the proposal was folded into it.
pub open spec fn enriched_row(
    row: EntityModel,
    e: EntityModel,
    entity_type: Seq<char>,
    aliases: Seq<Seq<char>>,
    confidence: Double,
    s: StampModel,
) -> EntityModel {
    EntityModel {
        entity_type: if row.entity_type == "unknown"@ {
            entity_type
        } else {
            row.entity_type
        },
        aliases: printed_list(aliases),
        confidence: e.confidence.spec_max(confidence),
        ..touched_row(row, s)
    }
}

pub open spec fn enriched(
    es: Seq<EntityModel>,
    e: EntityModel,
    entity_type: Seq<char>,
    aliases: Seq<Seq<char>>,
    confidence: Double,
    s: StampModel,
) -> Seq<EntityModel> {
    Seq::new(
        es.len(),
        |i: int|
            if es[i].id == e.id {
                enriched_row(es[i], e, entity_type, aliases, confidence, s)
            } else {
                es[i]
            },
    )
}

/// The entity that a proposal merges with.
pub open spec fn proposal_match(
    w: WorldModel,
    name: Seq<char>,
    entity_type: Seq<char>,
    weights: Weights,
    now: Seq<char>,
) -> Option<EntityModel> {
    match best_of(w, name, Some(entity_type), seq![], weights, now) {
        Some((e, m)) => if decision(m.total as int, weights) == Decision::Merge {
            Some(e)
        } else {
            None
        },
        None => None,
    }
}

/// The aliases of an entity that is made from a proposal.
pub open spec fn fresh_aliases(mention: Seq<char>, name: Seq<char>) -> Seq<Seq<char>> {
    if mention != name {
        seq![mention]
    } else {
        seq![]
    }
}

/// The world after a proposed entity was resolved, and the id that it has.
pub open spec fn upserted(
    w: WorldModel,
    mention: Seq<char>,
    name: Seq<char>,
    entity_type: Seq<char>,
    confidence: Double,
    weights: Weights,
    s: StampModel,
) -> (WorldModel, Seq<char>) {
    match proposal_match(w, name, entity_type, weights, s.now) {
        Some(e) => {
            let aliases = proposed_aliases(e, mention, name);
            (
                WorldModel {
                    entities: enriched(w.entities, e, entity_type, aliases, confidence, s),
                    keys: indexed(w.keys, e.id, e.canonical_name, aliases),
                    ..w
                },
                e.id,
            )
        },
        None => {
            let aliases = fresh_aliases(mention, name);
            (
                created(w, name, entity_type, printed_list(aliases), aliases, confidence, s),
                s.id,
            )
        },
    }
}

fn enrich_entity(
    world: &mut World,
    e: &WmEntity,
    entity_type: &str,
    aliases: &Vec<String>,
    confidence: Double,
    s: &Stamp,
)
    ensures
        final(world)@ == (WorldModel {
            entities: enriched(
                old(world)@.entities,
                e@,
                entity_type@,
                views(aliases@),
                confidence,
                s@,
            ),
            ..old(world)@
        }),
{
    let json = print_list(aliases);
    let ghost w = world@;
    let ghost goal = enriched(w.entities, e@, entity_type@, views(aliases@), confidence, s@);
    let mut i: usize = 0;
    while i < world.entities.len()
        invariant
            i <= world.entities@.len(),
            world.entities@.len() == w.entities.len(),
            json@ == printed_list(views(aliases@)),
            goal == enriched(w.entities, e@, entity_type@, views(aliases@), confidence, s@),
            world@ == (WorldModel { entities: rows(world.entities@), ..w }),
            forall|j: int| 0 <= j < i ==> (#[trigger] rows(world.entities@)[j]) == goal[j],
            forall|j: int|
                i <= j < w.entities.len() ==> (#[trigger] rows(world.entities@)[j])
                    == w.entities[j],
        decreases world.entities.len() - i,
    {
        let ghost cur = rows(world.entities@);
        assert(cur[i as int] == w.entities[i as int]);
        if str_eq(world.entities[i].id.as_str(), e.id.as_str()) {
            if str_eq(world.entities[i].entity_type.as_str(), "unknown") {
                world.entities[i].entity_type = entity_type.to_owned();
            }
            world.entities[i].aliases = json.clone();
            world.entities[i].confidence = e.confidence.max(confidence);
            world.entities[i].last_seen = s.now.clone();
            world.entities[i].expiry_time = Some(s.expiry.clone());
            world.entities[i].last_source_update_time = Some(s.now.clone());
            world.entities[i].is_live = true;
        }
        assert forall|j: int| 0 <= j < cur.len() && j != i implies (#[trigger] rows(
            world.entities@,
        )[j]) == cur[j] by {}
        assert(rows(world.entities@)[i as int] == goal[i as int]);
        i += 1;
    }
    assert(rows(world.entities@) =~= goal);
}

/// Resolves a proposed entity under the given stamp; returns its id.
pub fn upsert_resolved_entity_as(
    world: &mut World,
    mention: &str,
    canonical_name: &str,
    entity_type: &str,
    confidence: Double,
    weights: &Weights,
    s: &Stamp,
) -> (r: String)
    requires
        weights.wf(),
    ensures
        (final(world)@, r@) == upserted(
            old(world)@,
            mention@,
            canonical_name@,
            entity_type@,
            confidence,
            *weights,
            s@,
        ),
{
    let none: Vec<String> = Vec::new();
    assert(views(none@) =~= seq![]);
    let best = best_candidate(
        world,
        canonical_name,
        Some(entity_type),
        &none,
        weights,
        s.now.as_str(),
    );
    if let Some((existing, ms)) = best {
        if let Decision::Merge = decide(ms.total, weights) {
            let mut aliases = existing.alias_list();
            if !list_has(&aliases, mention) && !str_eq(mention, existing.canonical_name.as_str()) {
                let ghost had = views(aliases@);
                aliases.push(mention.to_owned());
                assert(views(aliases@) =~= had.push(mention@));
            }
            if !list_has(&aliases, canonical_name) && !str_eq(
                canonical_name,
                existing.canonical_name.as_str(),
            ) {
                let ghost had = views(aliases@);
                aliases.push(canonical_name.to_owned());
                assert(views(aliases@) =~= had.push(canonical_name@));
            }
            enrich_entity(world, &existing, entity_type, &aliases, confidence, s);
            index_entity(
                world,
                existing.id.as_str(),
                existing.canonical_name.as_str(),
                aliases.as_slice(),
            );
            return existing.id;
        }
    }
    let mut aliases: Vec<String> = Vec::new();
    if !str_eq(mention, canonical_name) {
        aliases.push(mention.to_owned());
    }
    assert(views(aliases@) =~= fresh_aliases(mention@, canonical_name@));
    let json = print_list(&aliases);
    insert_entity(world, canonical_name, entity_type, json, &aliases, confidence, s);
    s.id.clone()
}

/// Resolves an entity that a language model proposed (mention and normalized canonical name)
/// through the same blocking and matching as any other mention, so that the model's output is
/// never trusted blindly into a duplicate node. Returns the entity's id; one is created if
/// nothing matched confidently enough.
pub fn upsert_resolved_entity(
    world: &mut World,
    mention: &str,
    canonical_name: &str,
    entity_type: &str,
    confidence: Double,
    weights: &Weights,
) -> (r: String)
    requires
        weights.wf(),
    ensures
        exists|s: StampModel|
            is_stamp(s) && (final(world)@, r@) == #[trigger] upserted(
                old(world)@,
                mention@,
                canonical_name@,
                entity_type@,
                confidence,
                *weights,
                s,
            ),
{
    let s = stamp();
    upsert_resolved_entity_as(
        world,
        mention,
        canonical_name,
        entity_type,
        confidence,
        weights,
        &s,
    )
}

// ---------------------------------------------------------------------------------------------
// Human decisions

/// The bits of the double 0.7, the confidence of an entity that a human decision creates.
pub const DECIDED_CONFIDENCE: u64 = 0x3fe6666666666666;

/// The first candidate row with the given id.
pub open spec fn candidate_of(cs: Seq<CandidateModel>, id: Seq<char>) -> Option<CandidateModel>
    decreases cs.len(),
{
    if cs.len() == 0 {
        None
    } else if cs[0].id == id {
        Some(cs[0])
    } else {
        candidate_of(cs.drop_first(), id)
    }
}

pub(crate) fn find_candidate(cs: &Vec<WmExtractionCandidate>, id: &str) -> (r: Option<usize>)
    ensures
        match r {
            Some(i) => i < cs@.len() && candidate_of(rows(cs@), id@) == Some(cs@[i as int]@),
            None => candidate_of(rows(cs@), id@) is None,
        },
{
    let ghost all = rows(cs@);
    let mut i: usize = 0;
    assert(all.skip(0) =~= all);
    while i < cs.len()
        invariant
            i <= cs@.len(),
            all == rows(cs@),
            candidate_of(all, id@) == candidate_of(all.skip(i as int), id@),
        decreases cs.len() - i,
    {
        assert(all.skip(i as int)[0] == cs@[i as int]@);
        assert(all.skip(i as int).drop_first() =~= all.skip(i + 1));
        if str_eq(cs[i].id.as_str(), id) {
            return Some(i);
        }
        i += 1;
    }
    None
}

/// The candidates after a decision on one of them: its status, and its entity where another one
/// was made.
pub open spec fn judged(
    cs: Seq<CandidateModel>,
    id: Seq<char>,
    entity: Option<Seq<char>>,
    status: Seq<char>,
) -> Seq<CandidateModel> {
    Seq::new(
        cs.len(),
        |i: int|
            if cs[i].id == id {
                CandidateModel {
                    best_match_entity_id: match entity {
                        Some(e) => Some(e),
                        None => cs[i].best_match_entity_id,
                    },
                    status,
                    ..cs[i]
                }
            } else {
                cs[i]
            },
    )
}

fn judge(world: &mut World, id: &str, entity: Option<&str>, status: &str)
    ensures
        final(world)@ == (WorldModel {
            candidates: judged(old(world)@.candidates, id@, opt_str(entity), status@),
            ..old(world)@
        }),
{
    let ghost w = world@;
    let ghost goal = judged(w.candidates, id@, opt_str(entity), status@);
    let mut i: usize = 0;
    while i < world.candidates.len()
        invariant
            i <= world.candidates@.len(),
            world.candidates@.len() == w.candidates.len(),
            goal == judged(w.candidates, id@, opt_str(entity), status@),
            world@ == (WorldModel { candidates: rows(world.candidates@), ..w }),
            forall|j: int| 0 <= j < i ==> (#[trigger] rows(world.candidates@)[j]) == goal[j],
            forall|j: int|
                i <= j < w.candidates.len() ==> (#[trigger] rows(world.candidates@)[j])
                    == w.candidates[j],
        decreases world.candidates.len() - i,
    {
        let ghost cur = rows(world.candidates@);
        assert(cur[i as int] == w.candidates[i as int]);
        if str_eq(world.candidates[i].id.as_str(), id) {
            if let Some(e) = entity {
                world.candidates[i].best_match_entity_id = Some(e.to_owned());
            }
            world.candidates[i].status = status.to_owned();
        }
        assert forall|j: int| 0 <= j < cur.len() && j != i implies (#[trigger] rows(
            world.candidates@,
        )[j]) == cur[j] by {}
        assert(rows(world.candidates@)[i as int] == goal[i as int]);
        i += 1;
    }
    assert(rows(world.candidates@) =~= goal);
}

/// A decision request.
pub struct DecisionModel {
    pub candidate_id: Seq<char>,
    pub decision: Seq<char>,
    pub actor: Seq<char>,
    pub reason: Option<Seq<char>>,
}

/// The world with the candidate judged and the decision recorded.
pub open spec fn recorded(
    w: WorldModel,
    d: DecisionModel,
    entity: Option<Seq<char>>,
    status: Seq<char>,
    t: StampModel,
) -> WorldModel {
    WorldModel {
        candidates: judged(w.candidates, d.candidate_id, entity, status),
        decisions: w.decisions.push(
            ReviewModel {
                id: t.id,
                candidate_id: d.candidate_id,
                decision: d.decision,
                actor: d.actor,
                reason: d.reason,
                decided_at: t.now,
            },
        ),
        ..w
    }
}

/// The label of a candidate without a type guess.
pub open spec fn label_of(c: CandidateModel) -> Seq<char> {
    match c.mention_type_guess {
        Some(t) => t,
        None => "unknown"@,
    }
}

/// The world with an entity of its own for the candidate's mention.
pub open spec fn split_off(w: WorldModel, c: CandidateModel, s: StampModel) -> WorldModel {
    created_plain(
        w,
        c.mention_text,
        label_of(c),
        Double { bits: DECIDED_CONFIDENCE },
        s,
    )
}

/// The effect of a decision: the world after it and the summary, or why it is refused. `s`
/// stamps an entity, `p` a decorrelation, `t` the decision.
pub open spec fn decided(
    w: WorldModel,
    d: DecisionModel,
    s: StampModel,
    p: StampModel,
    t: StampModel,
) -> Result<(WorldModel, Seq<char>), ResolveErrorKind> {
    match candidate_of(w.candidates, d.candidate_id) {
        None => Err(ResolveErrorKind::CandidateNotFound),
        Some(c) => if d.decision == "confirm"@ {
            match c.best_match_entity_id {
                None => Err(ResolveErrorKind::NothingProposed),
                Some(target) => match entity_of(w.entities, target) {
                    None => Err(ResolveErrorKind::ProposedEntityMissing),
                    Some(e) => {
                        let w1 = WorldModel { entities: touched(w.entities, target, s), ..w };
                        let w2 = with_alias(w1, e, c.mention_text);
                        Ok(
                            (
                                recorded(w2, d, None, "confirmed"@, t),
                                "confirmed '"@ + c.mention_text + "' → "@ + e.canonical_name
                                    + " ("@ + e.id + ")"@,
                            ),
                        )
                    },
                },
            }
        } else if d.decision == "reject"@ {
            let w1 = split_off(w, c, s);
            let made = "created '"@ + c.mention_text + "' ("@ + s.id + ")"@;
            match c.best_match_entity_id {
                None => Ok((recorded(w1, d, Some(s.id), "rejected"@, t), made)),
                Some(prev) => if prev == s.id {
                    Err(ResolveErrorKind::SelfDecorrelation)
                } else {
                    let w2 = WorldModel {
                        decorrelations: with_parted(w1.decorrelations, s.id, prev, d.reason, p),
                        ..w1
                    };
                    Ok(
                        (
                            recorded(w2, d, Some(s.id), "rejected"@, t),
                            made + "; decorrelated from "@ + prev,
                        ),
                    )
                },
            }
        } else if d.decision == "new"@ {
            Ok(
                (
                    recorded(split_off(w, c, s), d, Some(s.id), "new"@, t),
                    "created '"@ + c.mention_text + "' ("@ + s.id + ")"@,
                ),
            )
        } else {
            Err(ResolveErrorKind::UnknownDecision)
        },
    }
}

/// The kinds of refusal.
#[derive(Clone, Copy, Debug, PartialEq, Eq, Structural)]
pub enum ResolveErrorKind {
    SelfDecorrelation,
    SameEntity,
    Decorrelated,
    MissingEntity,
    CandidateNotFound,
    NothingProposed,
    ProposedEntityMissing,
    UnknownDecision,
}

impl ResolveError {
    /// The kind of the refusal.
    pub open spec fn spec_kind(self) -> ResolveErrorKind {
        match self {
            ResolveError::SelfDecorrelation => ResolveErrorKind::SelfDecorrelation,
            ResolveError::SameEntity => ResolveErrorKind::SameEntity,
            ResolveError::Decorrelated { .. } => ResolveErrorKind::Decorrelated,
            ResolveError::MissingEntity => ResolveErrorKind::MissingEntity,
            ResolveError::CandidateNotFound => ResolveErrorKind::CandidateNotFound,
            ResolveError::NothingProposed => ResolveErrorKind::NothingProposed,
            ResolveError::ProposedEntityMissing => ResolveErrorKind::ProposedEntityMissing,
            ResolveError::UnknownDecision { .. } => ResolveErrorKind::UnknownDecision,
        }
    }

    pub fn kind(&self) -> (r: ResolveErrorKind)
        ensures
            r == self.spec_kind(),
    {
        match self {
            ResolveError::SelfDecorrelation => ResolveErrorKind::SelfDecorrelation,
            ResolveError::SameEntity => ResolveErrorKind::SameEntity,
            ResolveError::Decorrelated { .. } => ResolveErrorKind::Decorrelated,
            ResolveError::MissingEntity => ResolveErrorKind::MissingEntity,
            ResolveError::CandidateNotFound => ResolveErrorKind::CandidateNotFound,
            ResolveError::NothingProposed => ResolveErrorKind::NothingProposed,
            ResolveError::ProposedEntityMissing => ResolveErrorKind::ProposedEntityMissing,
            ResolveError::UnknownDecision { .. } => ResolveErrorKind::UnknownDecision,
        }
    }
}

/// What a result of a decision says: the summary, or the kind of the refusal.
pub open spec fn outcome(r: Result<String, ResolveError>) -> Result<Seq<char>, ResolveErrorKind> {
    match r {
        Ok(s) => Ok(s@),
        Err(e) => Err(e.spec_kind()),
    }
}

fn record(
    world: &mut World,
    candidate_id: &str,
    entity: Option<&str>,
    status: &str,
    request: (&str, &str, Option<&str>),
    t: &Stamp,
)
    ensures
        final(world)@ == recorded(
            old(world)@,
            (DecisionModel {
                candidate_id: candidate_id@,
                decision: request.0@,
                actor: request.1@,
                reason: opt_str(request.2),
            }),
            opt_str(entity),
            status@,
            t@,
        ),
{
    judge(world, candidate_id, entity, status);
    let row = ReviewDecision {
        id: t.id.clone(),
        candidate_id: candidate_id.to_owned(),
        decision: request.0.to_owned(),
        actor: request.1.to_owned(),
        reason: opt_owned(request.2),
        decided_at: t.now.clone(),
    };
    let ghost rv = row@;
    let ghost ds = world@.decisions;
    world.decisions.push(row);
    assert(rows(world.decisions@) =~= ds.push(rv));
}

/// Applies a human decision under the given stamps. A refused one changes nothing.
pub fn apply_decision_as(
    world: &mut World,
    candidate_id: &str,
    decision: &str,
    actor: &str,
    reason: Option<&str>,
    s: &Stamp,
    p: &Stamp,
    t: &Stamp,
) -> (r: Result<String, ResolveError>)
    ensures
        ({
            let d = DecisionModel {
                candidate_id: candidate_id@,
                decision: decision@,
                actor: actor@,
                reason: opt_str(reason),
            };
            match decided(old(world)@, d, s@, p@, t@) {
                Ok((w, summary)) => final(world)@ == w && outcome(r)
                    == Ok::<Seq<char>, ResolveErrorKind>(summary),
                Err(k) => final(world)@ == old(world)@ && outcome(r)
                    == Err::<Seq<char>, ResolveErrorKind>(k),
            }
        }),
        r matches Err(ResolveError::UnknownDecision { decision: d }) ==> d@ == decision@,
{
    let at = match find_candidate(&world.candidates, candidate_id) {
        Some(i) => i,
        None => {
            return Err(ResolveError::CandidateNotFound);
        },
    };
    let mention = world.candidates[at].mention_text.clone();
    let label = match &world.candidates[at].mention_type_guess {
        Some(l) => l.clone(),
        None => "unknown".to_owned(),
    };
    let proposed = opt_copy(&world.candidates[at].best_match_entity_id);
    let request = (decision, actor, reason);
    if str_eq(decision, "confirm") {
        let target = match proposed {
            Some(target) => target,
            None => {
                return Err(ResolveError::NothingProposed);
            },
        };
        let ent = match find_entity(&world.entities, target.as_str()) {
            Some(i) => world.entities[i].dup(),
            None => {
                return Err(ResolveError::ProposedEntityMissing);
            },
        };
        touch_entity(world, target.as_str(), s);
        add_alias(world, &ent, mention.as_str());
        record(world, candidate_id, None, "confirmed", request, t);
        let mut msg = "confirmed '".to_owned();
        msg.append(mention.as_str());
        msg.append("' → ");
        msg.append(ent.canonical_name.as_str());
        msg.append(" (");
        msg.append(ent.id.as_str());
        msg.append(")");
        Ok(msg)
    } else if str_eq(decision, "reject") {
        if let Some(prev) = &proposed {
            if str_eq(prev.as_str(), s.id.as_str()) {
                return Err(ResolveError::SelfDecorrelation);
            }
        }
        let confidence = Double::from_bits(DECIDED_CONFIDENCE);
        create_entity_as(world, mention.as_str(), label.as_str(), confidence, s);
        let mut msg = "created '".to_owned();
        msg.append(mention.as_str());
        msg.append("' (");
        msg.append(s.id.as_str());
        msg.append(")");
        if let Some(prev) = &proposed {
            let parted = decorrelate_as(world, s.id.as_str(), prev.as_str(), reason, p);
            assert(parted is Ok);
            msg.append("; decorrelated from ");
            msg.append(prev.as_str());
        }
        record(world, candidate_id, Some(s.id.as_str()), "rejected", request, t);
        Ok(msg)
    } else if str_eq(decision, "new") {
        let confidence = Double::from_bits(DECIDED_CONFIDENCE);
        create_entity_as(world, mention.as_str(), label.as_str(), confidence, s);
        record(world, candidate_id, Some(s.id.as_str()), "new", request, t);
        let mut msg = "created '".to_owned();
        msg.append(mention.as_str());
        msg.append("' (");
        msg.append(s.id.as_str());
        msg.append(")");
        Ok(msg)
    } else {
        Err(ResolveError::UnknownDecision { decision: decision.to_owned() })
    }
}

/// A human decision on a review candidate.
/// - `confirm`: the mention is the proposed entity (alias added, entity touched).
/// - `reject`: the mention is a different entity; a new entity is created and the pair is
///   decorrelated so that nothing merges them again.
/// - `new`: create a distinct entity without asserting anything about the proposed one.
pub fn apply_decision(
    world: &mut World,
    candidate_id: &str,
    decision: &str,
    actor: &str,
    reason: Option<&str>,
) -> (r: Result<String, ResolveError>)
    ensures
        exists|s: StampModel, p: StampModel, t: StampModel|
            is_stamp(s) && is_stamp(p) && is_stamp(t) && match #[trigger] decided(
                old(world)@,
                (DecisionModel {
                    candidate_id: candidate_id@,
                    decision: decision@,
                    actor: actor@,
                    reason: opt_str(reason),
                }),
                s,
                p,
                t,
            ) {
                Ok((w, summary)) => final(world)@ == w && outcome(r)
                    == Ok::<Seq<char>, ResolveErrorKind>(summary),
                Err(k) => final(world)@ == old(world)@ && outcome(r)
                    == Err::<Seq<char>, ResolveErrorKind>(k),
            },
        r matches Err(ResolveError::UnknownDecision { decision: d }) ==> d@ == decision@,
{
    let s = stamp();
    let p = stamp();
    let t = stamp();
    let r = apply_decision_as(world, candidate_id, decision, actor, reason, &s, &p, &t);
    proof {
        let d = DecisionModel {
            candidate_id: candidate_id@,
            decision: decision@,
            actor: actor@,
            reason: opt_str(reason),
        };
        let witness = decided(old(world)@, d, s@, p@, t@);
    }
    r
}

/// A rejected match is never proposed again: the new entity and the one that was proposed are
/// decorrelated, and what was decorrelated before stays so.
pub proof fn law_rejection_parts(
    w: WorldModel,
    d: DecisionModel,
    s: StampModel,
    p: StampModel,
    t: StampModel,
    pair: (Seq<char>, Seq<char>),
)
    requires
        d.decision == "reject"@,
        decided(w, d, s, p, t) is Ok,
        candidate_of(w.candidates, d.candidate_id) matches Some(c) && c.best_match_entity_id is Some,
    ensures
        ({
            let after = decided(w, d, s, p, t)->Ok_0.0;
            let prev = candidate_of(w.candidates, d.candidate_id)->0.best_match_entity_id->0;
            &&& has_pair(after.decorrelations, ordered(s.id, prev))
            &&& has_pair(w.decorrelations, pair) ==> has_pair(after.decorrelations, pair)
        }),
{
    let prev = candidate_of(w.candidates, d.candidate_id)->0.best_match_entity_id->0;
    reveal_strlit("reject");
    reveal_strlit("confirm");
    assert("reject"@.len() == 6);
    assert("confirm"@.len() == 7);
    law_decorrelation_is_sticky(w.decorrelations, s.id, prev, d.reason, p, pair);
}

// ---------------------------------------------------------------------------------------------
// Resolution of pending items

/// The bits of the doubles 0.3 and 0.9, between which the confidence of a new entity lies.
pub const CONFIDENCE_FLOOR: u64 = 0x3fd3333333333333;

pub const CONFIDENCE_CEILING: u64 = 0x3feccccccccccccd;

/// How a resolution run went.
#[derive(Clone, Copy, Debug, PartialEq, Eq, Structural)]
pub struct ResolveStats {
    pub items_processed: usize,
    pub auto_merged: usize,
    pub new_entities: usize,
    pub needs_llm: usize,
    pub pending_review: usize,
}

impl ResolveStats {
    /// Nothing has been done.
    pub open spec fn zero() -> ResolveStats {
        ResolveStats {
            items_processed: 0,
            auto_merged: 0,
            new_entities: 0,
            needs_llm: 0,
            pending_review: 0,
        }
    }
}

impl Default for ResolveStats {
    fn default() -> (r: Self)
        ensures
            r == ResolveStats::zero(),
    {
        ResolveStats {
            items_processed: 0,
            auto_merged: 0,
            new_entities: 0,
            needs_llm: 0,
            pending_review: 0,
        }
    }
}

/// One more, as far as the counter reaches.
pub open spec fn one_more(n: usize) -> usize {
    if n < usize::MAX {
        (n + 1) as usize
    } else {
        n
    }
}

pub(crate) fn count_one(n: usize) -> (r: usize)
    ensures
        r == one_more(n),
{
    if n < usize::MAX {
        n + 1
    } else {
        n
    }
}

/// Where the resolution of an item stands: the world, the entities that its mentions were
/// resolved to, whether a mention is left open, and the counts.
#[verifier::ext_equal]
pub struct ItemState {
    pub world: WorldModel,
    pub ids: Seq<Seq<char>>,
    pub open: bool,
    pub stats: ResolveStats,
}

/// What one mention does: its candidate row's status, entity, score and breakdown, the world
/// before that row, and the counts.
#[verifier::ext_equal]
pub struct StepModel {
    pub world: WorldModel,
    pub status: Seq<char>,
    pub entity_id: Seq<char>,
    pub score: Option<MatchModel>,
    pub open: bool,
    pub stats: ResolveStats,
}

pub open spec fn label_or_unknown(label: Option<Seq<char>>) -> Seq<char> {
    match label {
        Some(l) => l,
        None => "unknown"@,
    }
}

/// A mention that becomes an entity of its own.
pub open spec fn new_step(
    w: WorldModel,
    m: MentionModel,
    score: Option<MatchModel>,
    s: StampModel,
    stats: ResolveStats,
) -> StepModel {
    StepModel {
        world: created_plain(
            w,
            m.text,
            label_or_unknown(m.label),
            m.score.spec_clamp(
                Double { bits: CONFIDENCE_FLOOR },
                Double { bits: CONFIDENCE_CEILING },
            ),
            s,
        ),
        status: "needs_llm"@,
        entity_id: s.id,
        score,
        open: true,
        stats: ResolveStats { new_entities: one_more(stats.new_entities), ..stats },
    }
}

/// What a mention does: it merges with its best candidate, waits for review, or becomes an
/// entity of its own.
pub open spec fn mention_step(
    w: WorldModel,
    m: MentionModel,
    ids: Seq<Seq<char>>,
    weights: Weights,
    s: StampModel,
    stats: ResolveStats,
) -> StepModel {
    match best_of(w, m.text, m.label, ids, weights, s.now) {
        None => new_step(w, m, None, s, stats),
        Some((e, ms)) => match decision(ms.total as int, weights) {
            Decision::Merge => StepModel {
                world: WorldModel { entities: touched(w.entities, e.id, s), ..w },
                status: "auto_merged"@,
                entity_id: e.id,
                score: Some(ms),
                open: false,
                stats: ResolveStats { auto_merged: one_more(stats.auto_merged), ..stats },
            },
            Decision::Review => StepModel {
                world: w,
                status: "pending_review"@,
                entity_id: e.id,
                score: Some(ms),
                open: true,
                stats: ResolveStats { pending_review: one_more(stats.pending_review), ..stats },
            },
            Decision::New => new_step(w, m, Some(ms), s, stats),
        },
    }
}

/// The candidate row of a mention.
pub open spec fn candidate_row(
    item_id: Seq<char>,
    m: MentionModel,
    step: StepModel,
    t: StampModel,
) -> CandidateModel {
    CandidateModel {
        id: t.id,
        source_item_id: item_id,
        mention_text: m.text,
        mention_type_guess: m.label,
        best_match_entity_id: Some(step.entity_id),
        match_score: match step.score {
            Some(ms) => Some(ms.total),
            None => None,
        },
        status: step.status,
        created_at: t.now,
        feature_scores: step.score,
    }
}

/// The state after one more mention.
pub open spec fn after_mention(
    st: ItemState,
    item_id: Seq<char>,
    m: MentionModel,
    weights: Weights,
    stamps: (StampModel, StampModel),
) -> ItemState {
    let step = mention_step(st.world, m, st.ids, weights, stamps.0, st.stats);
    ItemState {
        world: WorldModel {
            candidates: step.world.candidates.push(candidate_row(item_id, m, step, stamps.1)),
            ..step.world
        },
        ids: if st.ids.contains(step.entity_id) {
            st.ids
        } else {
            st.ids.push(step.entity_id)
        },
        open: st.open || step.open,
        stats: step.stats,
    }
}

/// The state after the mentions, one after the other.
pub open spec fn after_mentions(
    st: ItemState,
    item_id: Seq<char>,
    ms: Seq<MentionModel>,
    weights: Weights,
    stamps: Seq<(StampModel, StampModel)>,
) -> ItemState
    decreases ms.len(),
{
    if ms.len() == 0 {
        st
    } else {
        let n = ms.len() - 1;
        after_mention(
            after_mentions(st, item_id, ms.drop_last(), weights, stamps),
            item_id,
            ms.last(),
            weights,
            stamps[n],
        )
    }
}

/// The edges after the first `n` pairs of neighbours were linked as mentioned together.
pub open spec fn linked_neighbours(
    es: Seq<EdgeModel>,
    ids: Seq<Seq<char>>,
    n: int,
    item_id: Seq<char>,
    observed_at: Seq<char>,
    stamps: Seq<StampModel>,
) -> Seq<EdgeModel>
    decreases n,
{
    if n <= 0 {
        es
    } else {
        linked(
            linked_neighbours(es, ids, n - 1, item_id, observed_at, stamps),
            ids[n - 1],
            ids[n],
            "mentioned_with"@,
            item_id,
            observed_at,
            stamps[n - 1],
        )
    }
}

/// The items with another status for one of them.
pub open spec fn with_status(items: Seq<SourceModel>, id: Seq<char>, status: Seq<char>) -> Seq<
    SourceModel,
> {
    Seq::new(
        items.len(),
        |i: int|
            if items[i].id == id {
                SourceModel { status, ..items[i] }
            } else {
                items[i]
            },
    )
}

/// What came from outside while an item was resolved: its mentions, the stamps of each, and the
/// stamps of the links.
#[verifier::ext_equal]
pub struct ItemTrace {
    pub mentions: Seq<MentionModel>,
    pub stamps: Seq<(StampModel, StampModel)>,
    pub links: Seq<StampModel>,
}

/// The world and the counts after an item was resolved: its mentions one by one, then the links
/// between the entities mentioned together, then its status.
pub open spec fn item_resolved(
    w: WorldModel,
    stats: ResolveStats,
    item_id: Seq<char>,
    observed_at: Seq<char>,
    trace: ItemTrace,
    weights: Weights,
) -> (WorldModel, ResolveStats) {
    let begin = ItemState {
        world: w,
        ids: seq![],
        open: false,
        stats: ResolveStats { items_processed: one_more(stats.items_processed), ..stats },
    };
    let st = after_mentions(begin, item_id, trace.mentions, weights, trace.stamps);
    let ids = sorted_texts(st.ids);
    let status = if st.open {
        "needs_llm"@
    } else {
        "resolved"@
    };
    (
        WorldModel {
            edges: linked_neighbours(
                st.world.edges,
                ids,
                ids.len() - 1,
                item_id,
                observed_at,
                trace.links,
            ),
            source_items: with_status(st.world.source_items, item_id, status),
            ..st.world
        },
        if st.open {
            ResolveStats { needs_llm: one_more(st.stats.needs_llm), ..st.stats }
        } else {
            st.stats
        },
    )
}

/// What a pair of stamps holds.
pub open spec fn stamp_pairs(v: Seq<(Stamp, Stamp)>) -> Seq<(StampModel, StampModel)> {
    Seq::new(v.len(), |i: int| (v[i].0@, v[i].1@))
}

fn resolve_mention(
    world: &mut World,
    item_id: &str,
    m: &Mention,
    ids: &mut Vec<String>,
    weights: &Weights,
    stamps: &(Stamp, Stamp),
    stats: &mut ResolveStats,
) -> (r: bool)
    requires
        weights.wf(),
    ensures
        ({
            let before = ItemState {
                world: old(world)@,
                ids: views(old(ids)@),
                open: false,
                stats: *old(stats),
            };
            let after = after_mention(
                before,
                item_id@,
                m@,
                *weights,
                (stamps.0@, stamps.1@),
            );
            &&& final(world)@ == after.world
            &&& views(final(ids)@) == after.ids
            &&& r == after.open
            &&& *final(stats) == after.stats
        }),
        final(ids)@.len() <= old(ids)@.len() + 1,
{
    let mention = m.text.as_str();
    let label: Option<&str> = match &m.label {
        Some(l) => Some(l.as_str()),
        None => None,
    };
    let confidence = m.score.clamp(
        Double::from_bits(CONFIDENCE_FLOOR),
        Double::from_bits(CONFIDENCE_CEILING),
    );
    let s = &stamps.0;
    let ghost step = mention_step(world@, m@, views(ids@), *weights, s@, *stats);
    let best = best_candidate(world, mention, label, ids, weights, s.now.as_str());
    let (status, entity_id, score, open) = match best {
        Some((ent, ms)) => match decide(ms.total, weights) {
            Decision::Merge => {
                touch_entity(world, ent.id.as_str(), s);
                stats.auto_merged = count_one(stats.auto_merged);
                ("auto_merged", ent.id, Some(ms), false)
            },
            Decision::Review => {
                stats.pending_review = count_one(stats.pending_review);
                ("pending_review", ent.id, Some(ms), true)
            },
            Decision::New => {
                let l = match label {
                    Some(l) => l,
                    None => "unknown",
                };
                create_entity_as(world, mention, l, confidence, s);
                stats.new_entities = count_one(stats.new_entities);
                ("needs_llm", s.id.clone(), Some(ms), true)
            },
        },
        None => {
            let l = match label {
                Some(l) => l,
                None => "unknown",
            };
            create_entity_as(world, mention, l, confidence, s);
            stats.new_entities = count_one(stats.new_entities);
            ("needs_llm", s.id.clone(), None, true)
        },
    };
    let total = match &score {
        Some(ms) => Some(ms.total),
        None => None,
    };
    assert(step.world == world@);
    assert(step.status == status@);
    assert(step.entity_id == entity_id@);
    assert(step.score == crate::models::opt_match(score));
    let row = WmExtractionCandidate {
        id: stamps.1.id.clone(),
        source_item_id: item_id.to_owned(),
        mention_text: m.text.clone(),
        mention_type_guess: opt_copy(&m.label),
        best_match_entity_id: Some(entity_id.clone()),
        match_score: total,
        status: status.to_owned(),
        created_at: stamps.1.now.clone(),
        feature_scores: score,
    };
    let ghost rv = row@;
    assert(rv == candidate_row(item_id@, m@, step, stamps.1@));
    let ghost cs = world@.candidates;
    world.candidates.push(row);
    assert(rows(world.candidates@) =~= cs.push(rv));
    if !list_has(ids, entity_id.as_str()) {
        let ghost had = views(ids@);
        let ghost ev = entity_id@;
        ids.push(entity_id);
        assert(views(ids@) =~= had.push(ev));
    }
    open
}

pub(crate) fn set_status(world: &mut World, id: &str, status: &str)
    ensures
        final(world)@ == (WorldModel {
            source_items: with_status(old(world)@.source_items, id@, status@),
            ..old(world)@
        }),
{
    let ghost w = world@;
    let ghost goal = with_status(w.source_items, id@, status@);
    let mut i: usize = 0;
    while i < world.source_items.len()
        invariant
            i <= world.source_items@.len(),
            world.source_items@.len() == w.source_items.len(),
            goal == with_status(w.source_items, id@, status@),
            world@ == (WorldModel { source_items: rows(world.source_items@), ..w }),
            forall|j: int| 0 <= j < i ==> (#[trigger] rows(world.source_items@)[j]) == goal[j],
            forall|j: int|
                i <= j < w.source_items.len() ==> (#[trigger] rows(world.source_items@)[j])
                    == w.source_items[j],
        decreases world.source_items.len() - i,
    {
        let ghost cur = rows(world.source_items@);
        assert(cur[i as int] == w.source_items[i as int]);
        if str_eq(world.source_items[i].id.as_str(), id) {
            world.source_items[i].status = status.to_owned();
        }
        assert forall|j: int| 0 <= j < cur.len() && j != i implies (#[trigger] rows(
            world.source_items@,
        )[j]) == cur[j] by {}
        assert(rows(world.source_items@)[i as int] == goal[i as int]);
        i += 1;
    }
    assert(rows(world.source_items@) =~= goal);
}

proof fn lemma_sorted_len(s: Seq<Seq<char>>)
    ensures
        sorted_texts(s).len() <= s.len(),
    decreases s.len(),
{
    if s.len() > 0 {
        lemma_sorted_len(s.drop_last());
        lemma_added_len(sorted_texts(s.drop_last()), s.last());
    }
}

proof fn lemma_added_len(list: Seq<Seq<char>>, x: Seq<char>)
    ensures
        text_added(list, x).len() <= list.len() + 1,
    decreases list.len(),
{
    if list.len() > 0 {
        lemma_added_len(list.drop_last(), x);
    }
}

/// Resolves one item: each mention merges, waits for review or becomes an entity, the entities
/// mentioned together are linked, and the item gets its status. There is a pair of stamps and a
/// link stamp for each mention.
pub fn resolve_item(
    world: &mut World,
    stats: &mut ResolveStats,
    item_id: &str,
    observed_at: &str,
    mentions: &Vec<Mention>,
    stamps: &Vec<(Stamp, Stamp)>,
    links: &Vec<Stamp>,
    weights: &Weights,
)
    requires
        weights.wf(),
        stamps@.len() == mentions@.len(),
        links@.len() == mentions@.len(),
    ensures
        (final(world)@, *final(stats)) == item_resolved(
            old(world)@,
            *old(stats),
            item_id@,
            observed_at@,
            (ItemTrace {
                mentions: rows(mentions@),
                stamps: stamp_pairs(stamps@),
                links: rows(links@),
            }),
            *weights,
        ),
{
    stats.items_processed = count_one(stats.items_processed);
    let ghost begin = ItemState { world: world@, ids: seq![], open: false, stats: *stats };
    let ghost ms = rows(mentions@);
    let ghost sp = stamp_pairs(stamps@);
    let ghost all = after_mentions(begin, item_id@, ms, *weights, sp);
    let mut ids: Vec<String> = Vec::new();
    let mut open = false;
    let mut i: usize = 0;
    assert(ms.take(0) =~= seq![]);
    assert(views(ids@) =~= seq![]);
    while i < mentions.len()
        invariant
            i <= mentions@.len(),
            stamps@.len() == mentions@.len(),
            weights.wf(),
            ms == rows(mentions@),
            sp == stamp_pairs(stamps@),
            ids@.len() <= i,
            ({
                let st = after_mentions(begin, item_id@, ms.take(i as int), *weights, sp);
                &&& world@ == st.world
                &&& views(ids@) == st.ids
                &&& open == st.open
                &&& *stats == st.stats
            }),
        decreases mentions.len() - i,
    {
        assert(ms.take(i + 1).drop_last() =~= ms.take(i as int));
        assert(ms.take(i + 1).last() == mentions@[i as int]@);
        assert(sp[i as int] == (stamps@[i as int].0@, stamps@[i as int].1@));
        let left_open = resolve_mention(
            world,
            item_id,
            &mentions[i],
            &mut ids,
            weights,
            &stamps[i],
            stats,
        );
        open = open || left_open;
        i += 1;
    }
    assert(ms.take(i as int) =~= ms);
    let sorted = sort_texts(&ids);
    let ghost sv = sorted_texts(all.ids);
    proof {
        lemma_sorted_len(all.ids);
        assert(views(ids@).len() == ids@.len());
        assert(views(sorted@).len() == sorted@.len());
    }
    let ghost w = world@;
    let ghost ls = rows(links@);
    let mut k: usize = 1;
    while k < sorted.len()
        invariant
            1 <= k,
            k <= sorted@.len() || k == 1,
            sorted@.len() <= links@.len(),
            sv == views(sorted@),
            ls == rows(links@),
            world@ == (WorldModel {
                edges: linked_neighbours(w.edges, sv, k - 1, item_id@, observed_at@, ls),
                ..w
            }),
        decreases sorted.len() - k,
    {
        assert(sv[k - 1] == sorted@[k - 1]@);
        assert(sv[k as int] == sorted@[k as int]@);
        assert(ls[k - 1] == links@[k - 1]@);
        link_entities_typed_as(
            world,
            sorted[k - 1].as_str(),
            sorted[k].as_str(),
            "mentioned_with",
            item_id,
            observed_at,
            &links[k - 1],
        );
        k += 1;
    }
    assert(world@.edges == linked_neighbours(
        w.edges,
        sv,
        sv.len() - 1,
        item_id@,
        observed_at@,
        ls,
    ));
    if open {
        stats.needs_llm = count_one(stats.needs_llm);
        set_status(world, item_id, "needs_llm");
    } else {
        set_status(world, item_id, "resolved");
    }
}

/// When the item was observed: when it was published, as far as that is known, else when it was
/// ingested.
pub open spec fn observed(item: SourceModel) -> Seq<char> {
    match item.published_at {
        Some(t) => t,
        None => item.ingested_at,
    }
}

/// The pending items, in order.
pub open spec fn pending(items: Seq<SourceModel>) -> Seq<SourceModel>
    decreases items.len(),
{
    if items.len() == 0 {
        seq![]
    } else if items.last().status == "pending"@ {
        pending(items.drop_last()).push(items.last())
    } else {
        pending(items.drop_last())
    }
}

/// The first `limit` of a list, all of it where the limit is negative.
pub open spec fn limited<T>(s: Seq<T>, limit: i64) -> Seq<T> {
    if 0 <= limit < s.len() {
        s.take(limit as int)
    } else {
        s
    }
}

/// The world and the counts after the items were resolved, one after the other.
pub open spec fn all_resolved(
    w: WorldModel,
    items: Seq<SourceModel>,
    traces: Seq<ItemTrace>,
    weights: Weights,
) -> (WorldModel, ResolveStats)
    decreases items.len(),
{
    if items.len() == 0 {
        (w, ResolveStats::zero())
    } else {
        let n = items.len() - 1;
        let (w1, stats) = all_resolved(w, items.drop_last(), traces, weights);
        item_resolved(w1, stats, items.last().id, observed(items.last()), traces[n], weights)
    }
}

/// There is a pair of stamps and a link stamp for each mention, all of them drawn.
pub open spec fn is_trace(t: ItemTrace) -> bool {
    &&& t.stamps.len() == t.mentions.len()
    &&& t.links.len() == t.mentions.len()
    &&& are_stamp_pairs(t.stamps)
    &&& are_stamps(t.links)
}

pub open spec fn are_stamp_pairs(v: Seq<(StampModel, StampModel)>) -> bool {
    forall|i: int| 0 <= i < v.len() ==> is_stamp((#[trigger] v[i]).0) && is_stamp(v[i].1)
}

/// The traces are those of the items, and their mentions are what the extractor found.
pub open spec fn traced<E: MentionExtractor>(
    extractor: E,
    items: Seq<SourceModel>,
    traces: Seq<ItemTrace>,
) -> bool {
    &&& traces.len() == items.len()
    &&& forall|i: int|
        0 <= i < items.len() ==> extractor.may_find(
            (#[trigger] items[i]).raw_text,
            traces[i].mentions,
        )
    &&& forall|i: int| 0 <= i < traces.len() ==> is_trace(#[trigger] traces[i])
}

/// The extractor failed on the item at a position, with those before it resolved.
pub open spec fn stopped<E: MentionExtractor>(
    extractor: E,
    w: WorldModel,
    items: Seq<SourceModel>,
    n: int,
    traces: Seq<ItemTrace>,
    weights: Weights,
    end: WorldModel,
) -> bool {
    &&& 0 <= n < items.len()
    &&& traced(extractor, items.take(n), traces)
    &&& extractor.may_fail(items[n].raw_text)
    &&& end == all_resolved(w, items.take(n), traces, weights).0
}

/// The world with the index built if there was none.
pub open spec fn with_index(w: WorldModel) -> WorldModel {
    if w.keys.len() == 0 && w.entities.len() > 0 {
        WorldModel { keys: crate::block::reindexed(w.keys, w.entities), ..w }
    } else {
        w
    }
}

/// The id, text and observation time of each pending item, as far as the limit goes.
fn pending_items(world: &World, limit: i64) -> (r: Vec<(String, String, String)>)
    ensures
        ({
            let items = limited(pending(world@.source_items), limit);
            &&& r@.len() == items.len()
            &&& forall|i: int|
                0 <= i < r@.len() ==> (#[trigger] r@[i]).0@ == items[i].id && r@[i].1@
                    == items[i].raw_text && r@[i].2@ == observed(items[i])
        }),
{
    let ghost all = world@.source_items;
    let mut out: Vec<(String, String, String)> = Vec::new();
    let mut i: usize = 0;
    assert(all.take(0) =~= seq![]);
    while i < world.source_items.len()
        invariant
            i <= world.source_items@.len(),
            all == rows(world.source_items@),
            out@.len() == pending(all.take(i as int)).len(),
            forall|j: int|
                0 <= j < out@.len() ==> (#[trigger] out@[j]).0@ == pending(
                    all.take(i as int),
                )[j].id && out@[j].1@ == pending(all.take(i as int))[j].raw_text && out@[j].2@
                    == observed(pending(all.take(i as int))[j]),
        decreases world.source_items.len() - i,
    {
        assert(all.take(i + 1).drop_last() =~= all.take(i as int));
        assert(all.take(i + 1).last() == world.source_items@[i as int]@);
        let item = &world.source_items[i];
        if str_eq(item.status.as_str(), "pending") {
            let at = match &item.published_at {
                Some(t) => t.clone(),
                None => item.ingested_at.clone(),
            };
            out.push((item.id.clone(), item.raw_text.clone(), at));
        }
        i += 1;
    }
    assert(all.take(i as int) =~= all);
    if limit >= 0 && (limit as u64) < (out.len() as u64) {
        out.truncate(limit as usize);
    }
    out
}

/// A pair of stamps and a link stamp for each of `n` mentions.
fn stamps_for(n: usize) -> (r: (Vec<(Stamp, Stamp)>, Vec<Stamp>))
    ensures
        r.0@.len() == n,
        r.1@.len() == n,
        are_stamp_pairs(stamp_pairs(r.0@)),
        are_stamps(rows(r.1@)),
{
    let mut pairs: Vec<(Stamp, Stamp)> = Vec::new();
    let mut links: Vec<Stamp> = Vec::new();
    let mut i: usize = 0;
    while i < n
        invariant
            i <= n,
            pairs@.len() == i,
            links@.len() == i,
            forall|k: int|
                0 <= k < i ==> is_stamp((#[trigger] pairs@[k]).0@) && is_stamp(pairs@[k].1@),
            forall|k: int| 0 <= k < i ==> is_stamp((#[trigger] links@[k])@),
        decreases n - i,
    {
        pairs.push((stamp(), stamp()));
        links.push(stamp());
        i += 1;
    }
    assert forall|k: int| 0 <= k < n implies is_stamp((#[trigger] stamp_pairs(pairs@)[k]).0)
        && is_stamp(stamp_pairs(pairs@)[k].1) by {
        assert(is_stamp(pairs@[k].0@));
    }
    assert forall|k: int| 0 <= k < n implies is_stamp(#[trigger] rows(links@)[k]) by {
        assert(is_stamp(links@[k]@));
    }
    (pairs, links)
}

/// Runs the resolution pass over every pending item, at most `limit` items per call. Where the
/// extractor fails on an item, the items before it stay resolved and the others pending.
pub fn resolve_pending<E: MentionExtractor>(
    world: &mut World,
    extractor: &E,
    weights: &Weights,
    limit: i64,
) -> (r: Result<ResolveStats, ExtractError>)
    requires
        weights.wf(),
    ensures
        ({
            let items = limited(pending(old(world)@.source_items), limit);
            let w = with_index(old(world)@);
            match r {
                Ok(stats) => exists|traces: Seq<ItemTrace>| #[trigger]
                    traced(*extractor, items, traces) && (final(world)@, stats) == all_resolved(
                        w,
                        items,
                        traces,
                        *weights,
                    ),
                Err(_) => exists|n: int, traces: Seq<ItemTrace>| #[trigger]
                    stopped(*extractor, w, items, n, traces, *weights, final(world)@),
            }
        }),
{
    crate::block::ensure_index(world);
    let ghost w = world@;
    let items = pending_items(world, limit);
    let ghost iv = limited(pending(w.source_items), limit);
    let mut stats = ResolveStats::default();
    let ghost mut traces: Seq<ItemTrace> = seq![];
    let mut i: usize = 0;
    assert(iv.take(0) =~= seq![]);
    while i < items.len()
        invariant
            i <= items@.len(),
            weights.wf(),
            iv == limited(pending(old(world)@.source_items), limit),
            w == with_index(old(world)@),
            items@.len() == iv.len(),
            forall|j: int|
                0 <= j < items@.len() ==> (#[trigger] items@[j]).0@ == iv[j].id && items@[j].1@
                    == iv[j].raw_text && items@[j].2@ == observed(iv[j]),
            traced(*extractor, iv.take(i as int), traces),
            (world@, stats) == all_resolved(w, iv.take(i as int), traces, *weights),
        decreases items.len() - i,
    {
        assert(items@[i as int].0@ == iv[i as int].id);
        let mentions = match extractor.extract(items[i].1.as_str()) {
            Ok(ms) => ms,
            Err(e) => {
                assert(stopped(*extractor, w, iv, i as int, traces, *weights, world@));
                return Err(e);
            },
        };
        let (stamps, links) = stamps_for(mentions.len());
        resolve_item(
            world,
            &mut stats,
            items[i].0.as_str(),
            items[i].2.as_str(),
            &mentions,
            &stamps,
            &links,
            weights,
        );
        proof {
            let trace = ItemTrace {
                mentions: rows(mentions@),
                stamps: stamp_pairs(stamps@),
                links: rows(links@),
            };
            let more = traces.push(trace);
            assert(iv.take(i + 1).drop_last() =~= iv.take(i as int));
            lemma_traces_extend(w, iv.take(i as int), traces, trace, *weights);
            assert forall|j: int| 0 <= j < i + 1 implies extractor.may_find(
                (#[trigger] iv.take(i + 1)[j]).raw_text,
                more[j].mentions,
            ) by {
                if j < i {
                    assert(iv.take(i as int)[j] == iv.take(i + 1)[j]);
                }
            }
            assert(is_trace(trace));
            assert forall|j: int| 0 <= j < more.len() implies is_trace(#[trigger] more[j]) by {
                if j < traces.len() {
                    assert(more[j] == traces[j]);
                }
            }
            traces = more;
        }
        i += 1;
    }
    assert(iv.take(i as int) =~= iv);
    Ok(stats)
}

proof fn lemma_traces_extend(
    w: WorldModel,
    items: Seq<SourceModel>,
    traces: Seq<ItemTrace>,
    t: ItemTrace,
    weights: Weights,
)
    requires
        items.len() <= traces.len(),
    ensures
        all_resolved(w, items, traces.push(t), weights) == all_resolved(w, items, traces, weights),
    decreases items.len(),
{
    if items.len() > 0 {
        lemma_traces_extend(w, items.drop_last(), traces, t, weights);
    }
}

/// Every entity is still there under its id and its name: none was merged into another one.
pub open spec fn entities_stay(earlier: Seq<EntityModel>, later: Seq<EntityModel>) -> bool {
    &&& earlier.len() <= later.len()
    &&& forall|i: int|
        0 <= i < earlier.len() ==> (#[trigger] later[i]).id == earlier[i].id
            && later[i].canonical_name == earlier[i].canonical_name
}

proof fn lemma_mentions_keep(
    st: ItemState,
    item_id: Seq<char>,
    ms: Seq<MentionModel>,
    weights: Weights,
    stamps: Seq<(StampModel, StampModel)>,
)
    ensures
        ({
            let after = after_mentions(st, item_id, ms, weights, stamps);
            &&& after.world.decorrelations == st.world.decorrelations
            &&& after.world.edges == st.world.edges
            &&& after.world.decisions == st.world.decisions
            &&& after.world.source_items == st.world.source_items
            &&& after.world.candidates.len() == st.world.candidates.len() + ms.len()
            &&& entities_stay(st.world.entities, after.world.entities)
        }),
    decreases ms.len(),
{
    if ms.len() > 0 {
        lemma_mentions_keep(st, item_id, ms.drop_last(), weights, stamps);
    }
}

proof fn lemma_neighbours_keep(
    es: Seq<EdgeModel>,
    ids: Seq<Seq<char>>,
    n: int,
    item_id: Seq<char>,
    observed_at: Seq<char>,
    stamps: Seq<StampModel>,
)
    requires
        consistent(es),
    ensures
        consistent(linked_neighbours(es, ids, n, item_id, observed_at, stamps)),
    decreases n,
{
    if n > 0 {
        lemma_neighbours_keep(es, ids, n - 1, item_id, observed_at, stamps);
        law_one_holder_at_a_time(
            linked_neighbours(es, ids, n - 1, item_id, observed_at, stamps),
            ids[n - 1],
            ids[n],
            "mentioned_with"@,
            item_id,
            observed_at,
            stamps[n - 1],
        );
    }
}

/// Resolution leaves human decisions alone and the relations consistent: decorrelations and
/// decisions are as they were, no entity was merged into another one, and where no two valid edges
/// contradicted each other, none do afterwards.
pub proof fn law_resolution_keeps(
    w: WorldModel,
    items: Seq<SourceModel>,
    traces: Seq<ItemTrace>,
    weights: Weights,
)
    ensures
        ({
            let after = all_resolved(w, items, traces, weights).0;
            &&& after.decorrelations == w.decorrelations
            &&& after.decisions == w.decisions
            &&& after.source_items.len() == w.source_items.len()
            &&& entities_stay(w.entities, after.entities)
            &&& consistent(w.edges) ==> consistent(after.edges)
        }),
    decreases items.len(),
{
    if items.len() > 0 {
        let most = items.drop_last();
        law_resolution_keeps(w, most, traces, weights);
        let (w1, stats) = all_resolved(w, most, traces, weights);
        let trace = traces[items.len() - 1];
        let id = items.last().id;
        let begin = ItemState {
            world: w1,
            ids: seq![],
            open: false,
            stats: ResolveStats { items_processed: one_more(stats.items_processed), ..stats },
        };
        lemma_mentions_keep(begin, id, trace.mentions, weights, trace.stamps);
        let st = after_mentions(begin, id, trace.mentions, weights, trace.stamps);
        let ids = sorted_texts(st.ids);
        if consistent(w.edges) {
            lemma_neighbours_keep(
                st.world.edges,
                ids,
                ids.len() - 1,
                id,
                observed(items.last()),
                trace.links,
            );
        }
    }
}

} // verus!
