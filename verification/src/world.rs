//! The world model: what is stored, table by table, in insertion order.

use vstd::prelude::*;

use crate::double::Double;
use crate::models::{
    hyphenated, is_instant, new_id, rows, CandidateModel, EdgeModel, EntityModel, SourceModel,
    WmEdge, WmEntity, WmExtractionCandidate, WmSourceItem,
};
use crate::resolve::elapsed_seconds;
use crate::text::{before, opt_view};

verus! {

/// One blocking key of an entity.
#[derive(Debug)]
pub struct EntityKey {
    pub entity_id: String,
    pub key_type: String,
    pub key: String,
}

#[verifier::ext_equal]
pub struct KeyModel {
    pub entity_id: Seq<char>,
    pub key_type: Seq<char>,
    pub key: Seq<char>,
}

impl View for EntityKey {
    type V = KeyModel;

    open spec fn view(&self) -> KeyModel {
        KeyModel { entity_id: self.entity_id@, key_type: self.key_type@, key: self.key@ }
    }
}

/// A human decision that two entities are not the same. The pair is kept in order.
#[derive(Debug)]
pub struct Decorrelation {
    pub id: String,
    pub entity_a_id: String,
    pub entity_b_id: String,
    pub reason: Option<String>,
    pub decided_at: String,
}

#[verifier::ext_equal]
pub struct DecorrelationModel {
    pub id: Seq<char>,
    pub entity_a_id: Seq<char>,
    pub entity_b_id: Seq<char>,
    pub reason: Option<Seq<char>>,
    pub decided_at: Seq<char>,
}

impl View for Decorrelation {
    type V = DecorrelationModel;

    open spec fn view(&self) -> DecorrelationModel {
        DecorrelationModel {
            id: self.id@,
            entity_a_id: self.entity_a_id@,
            entity_b_id: self.entity_b_id@,
            reason: opt_view(self.reason),
            decided_at: self.decided_at@,
        }
    }
}

/// A human decision on a review candidate.
#[derive(Debug)]
pub struct ReviewDecision {
    pub id: String,
    pub candidate_id: String,
    pub decision: String,
    pub actor: String,
    pub reason: Option<String>,
    pub decided_at: String,
}

#[verifier::ext_equal]
pub struct ReviewModel {
    pub id: Seq<char>,
    pub candidate_id: Seq<char>,
    pub decision: Seq<char>,
    pub actor: Seq<char>,
    pub reason: Option<Seq<char>>,
    pub decided_at: Seq<char>,
}

impl View for ReviewDecision {
    type V = ReviewModel;

    open spec fn view(&self) -> ReviewModel {
        ReviewModel {
            id: self.id@,
            candidate_id: self.candidate_id@,
            decision: self.decision@,
            actor: self.actor@,
            reason: opt_view(self.reason),
            decided_at: self.decided_at@,
        }
    }
}

/// Where an entity lies on the globe.
#[derive(Debug)]
pub struct GeoRow {
    pub entity_id: String,
    pub lat: Double,
    pub lon: Double,
    pub geo_confidence: Double,
    pub geonameid: Option<i64>,
    pub place_name: Option<String>,
    pub geocoded_at: String,
}

#[verifier::ext_equal]
pub struct GeoModel {
    pub entity_id: Seq<char>,
    pub lat: Double,
    pub lon: Double,
    pub geo_confidence: Double,
    pub geonameid: Option<i64>,
    pub place_name: Option<Seq<char>>,
    pub geocoded_at: Seq<char>,
}

impl View for GeoRow {
    type V = GeoModel;

    open spec fn view(&self) -> GeoModel {
        GeoModel {
            entity_id: self.entity_id@,
            lat: self.lat,
            lon: self.lon,
            geo_confidence: self.geo_confidence,
            geonameid: self.geonameid,
            place_name: opt_view(self.place_name),
            geocoded_at: self.geocoded_at@,
        }
    }
}

/// Everything that is stored.
#[derive(Debug)]
pub struct World {
    pub source_items: Vec<WmSourceItem>,
    pub entities: Vec<WmEntity>,
    pub keys: Vec<EntityKey>,
    pub edges: Vec<WmEdge>,
    pub candidates: Vec<WmExtractionCandidate>,
    pub decorrelations: Vec<Decorrelation>,
    pub decisions: Vec<ReviewDecision>,
    pub geo: Vec<GeoRow>,
}

#[verifier::ext_equal]
pub struct WorldModel {
    pub source_items: Seq<SourceModel>,
    pub entities: Seq<EntityModel>,
    pub keys: Seq<KeyModel>,
    pub edges: Seq<EdgeModel>,
    pub candidates: Seq<CandidateModel>,
    pub decorrelations: Seq<DecorrelationModel>,
    pub decisions: Seq<ReviewModel>,
    pub geo: Seq<GeoModel>,
}

impl View for World {
    type V = WorldModel;

    open spec fn view(&self) -> WorldModel {
        WorldModel {
            source_items: rows(self.source_items@),
            entities: rows(self.entities@),
            keys: rows(self.keys@),
            edges: rows(self.edges@),
            candidates: rows(self.candidates@),
            decorrelations: rows(self.decorrelations@),
            decisions: rows(self.decisions@),
            geo: rows(self.geo@),
        }
    }
}

impl WorldModel {
    /// Nothing is stored.
    pub open spec fn empty() -> WorldModel {
        WorldModel {
            source_items: seq![],
            entities: seq![],
            keys: seq![],
            edges: seq![],
            candidates: seq![],
            decorrelations: seq![],
            decisions: seq![],
            geo: seq![],
        }
    }
}

impl World {
    pub fn new() -> (r: World)
        ensures
            r@ == WorldModel::empty(),
    {
        let w = World {
            source_items: Vec::new(),
            entities: Vec::new(),
            keys: Vec::new(),
            edges: Vec::new(),
            candidates: Vec::new(),
            decorrelations: Vec::new(),
            decisions: Vec::new(),
            geo: Vec::new(),
        };
        assert(w@ =~= WorldModel::empty());
        w
    }
}

/// The position of the first entity with the given id, the number of entities where there is
/// none.
pub open spec fn entity_at(es: Seq<EntityModel>, id: Seq<char>) -> int
    decreases es.len(),
{
    if es.len() == 0 {
        0
    } else if entity_at(es.drop_last(), id) < es.len() - 1 {
        entity_at(es.drop_last(), id)
    } else if es.last().id == id {
        es.len() - 1
    } else {
        es.len() as int
    }
}

/// The first entity with the given id.
pub open spec fn entity_of(es: Seq<EntityModel>, id: Seq<char>) -> Option<EntityModel> {
    let i = entity_at(es, id);
    if 0 <= i < es.len() {
        Some(es[i])
    } else {
        None
    }
}

/// Where the first entity with the given id stands.
pub fn find_entity(es: &Vec<WmEntity>, id: &str) -> (r: Option<usize>)
    ensures
        match r {
            Some(i) => i < es@.len() && i == entity_at(rows(es@), id@) && es@[i as int].id@ == id@
                && entity_of(rows(es@), id@) == Some(es@[i as int]@),
            None => entity_of(rows(es@), id@) is None,
        },
{
    let mut i: usize = 0;
    let ghost all = rows(es@);
    while i < es.len()
        invariant
            i <= es@.len(),
            all == rows(es@),
            entity_at(all.take(i as int), id@) == i,
        decreases es.len() - i,
    {
        assert(all.take(i + 1).drop_last() =~= all.take(i as int));
        assert(all.take(i + 1).last() == es@[i as int]@);
        if crate::text::str_eq(es[i].id.as_str(), id) {
            proof {
                lemma_entity_at_extends(all, id@, i + 1);
            }
            return Some(i);
        }
        i += 1;
    }
    assert(all.take(i as int) =~= all);
    None
}

proof fn lemma_entity_at_extends(es: Seq<EntityModel>, id: Seq<char>, n: int)
    requires
        0 <= n <= es.len(),
        entity_at(es.take(n), id) < n,
    ensures
        entity_at(es, id) == entity_at(es.take(n), id),
    decreases es.len(),
{
    if n < es.len() {
        assert(es.drop_last().take(n) =~= es.take(n));
        lemma_entity_at_extends(es.drop_last(), id, n);
    } else {
        assert(es.take(n) =~= es);
    }
}

/// What `entity_at` finds: the first entity with the id, and none where there is none.
pub proof fn lemma_entity_at(es: Seq<EntityModel>, id: Seq<char>)
    ensures
        0 <= entity_at(es, id) <= es.len(),
        forall|i: int| 0 <= i < entity_at(es, id) ==> (#[trigger] es[i]).id != id,
        entity_at(es, id) < es.len() ==> es[entity_at(es, id)].id == id,
    decreases es.len(),
{
    if es.len() > 0 {
        let most = es.drop_last();
        lemma_entity_at(most, id);
        assert forall|i: int| 0 <= i < entity_at(es, id) implies (#[trigger] es[i]).id != id by {
            if i < most.len() {
                assert(most[i] == es[i]);
            }
        }
        if entity_at(most, id) < most.len() {
            assert(most[entity_at(most, id)] == es[entity_at(most, id)]);
        }
    }
}

/// No two entities have the same id.
pub open spec fn unique_ids(es: Seq<EntityModel>) -> bool {
    forall|i: int, j: int| 0 <= i < j < es.len() ==> (#[trigger] es[i]).id != (#[trigger] es[j]).id
}

/// The first item with the given id.
pub open spec fn item_of(items: Seq<SourceModel>, id: Seq<char>) -> Option<SourceModel>
    decreases items.len(),
{
    if items.len() == 0 {
        None
    } else if items[0].id == id {
        Some(items[0])
    } else {
        item_of(items.drop_first(), id)
    }
}

/// Where the first item with the given id stands.
pub fn find_item(items: &Vec<WmSourceItem>, id: &str) -> (r: Option<usize>)
    ensures
        match r {
            Some(i) => i < items@.len() && item_of(rows(items@), id@) == Some(items@[i as int]@),
            None => item_of(rows(items@), id@) is None,
        },
{
    let ghost all = rows(items@);
    let mut i: usize = 0;
    assert(all.skip(0) =~= all);
    while i < items.len()
        invariant
            i <= items@.len(),
            all == rows(items@),
            item_of(all, id@) == item_of(all.skip(i as int), id@),
        decreases items.len() - i,
    {
        assert(all.skip(i as int)[0] == items@[i as int]@);
        assert(all.skip(i as int).drop_first() =~= all.skip(i + 1));
        if crate::text::str_eq(items[i].id.as_str(), id) {
            return Some(i);
        }
        i += 1;
    }
    None
}

/// A fresh identifier and the times that a write is stamped with.
#[derive(Debug)]
pub struct Stamp {
    pub id: String,
    pub now: String,
    pub expiry: String,
}

#[verifier::ext_equal]
pub struct StampModel {
    pub id: Seq<char>,
    pub now: Seq<char>,
    pub expiry: Seq<char>,
}

impl View for Stamp {
    type V = StampModel;

    open spec fn view(&self) -> StampModel {
        StampModel { id: self.id@, now: self.now@, expiry: self.expiry@ }
    }
}

impl Stamp {
    pub fn dup(&self) -> (r: Stamp)
        ensures
            r@ == self@,
    {
        Stamp { id: self.id.clone(), now: self.now.clone(), expiry: self.expiry.clone() }
    }
}

/// Entities expire after this many days unless they are touched or set never to expire, rather
/// than all facts living forever with equal weight.
pub const DEFAULT_EXPIRY_DAYS: i64 = 30;

/// The same in seconds.
pub const DEFAULT_EXPIRY_SECONDS: i64 = 2_592_000;

/// The year of an instant has four digits, not a sign and more.
pub open spec fn has_common_year(s: Seq<char>) -> bool {
    s[0] != '+'
}

/// `chrono::Utc::now`, and the given number of days (`chrono::Duration::days`) after it, both in
/// RFC 3339 form: two instants that are not before 1970 and just so far apart. Of a year beyond
/// 9999 the distance is left unsaid, as such a text is not read back.
#[verifier::external_body]
fn now_and_days_later(days: i64) -> (r: (String, String))
    requires
        0 < days <= 36500,
    ensures
        is_instant(r.0@),
        is_instant(r.1@),
        has_common_year(r.1@) ==> elapsed_seconds(r.0@, r.1@) == Some((86_400 * days) as i64),
        has_common_year(r.1@) ==> before(r.0@, r.1@),
{
    let now = chrono::Utc::now();
    (now.to_rfc3339(), (now + chrono::Duration::days(days)).to_rfc3339())
}

/// The expiry of what is touched at `now`: thirty days ahead.
pub open spec fn is_default_expiry(now: Seq<char>, expiry: Seq<char>) -> bool {
    has_common_year(expiry) ==> elapsed_seconds(now, expiry) == Some(DEFAULT_EXPIRY_SECONDS)
        && before(now, expiry)
}

/// The time, and when what is touched now expires.
fn default_expiry() -> (r: (String, String))
    ensures
        is_instant(r.0@),
        is_instant(r.1@),
        is_default_expiry(r.0@, r.1@),
{
    now_and_days_later(DEFAULT_EXPIRY_DAYS)
}

/// A stamp as it is drawn: a random identifier, the time, and an expiry thirty days ahead of it.
pub open spec fn is_stamp(s: StampModel) -> bool {
    &&& hyphenated(s.id)
    &&& is_instant(s.now)
    &&& is_instant(s.expiry)
    &&& is_default_expiry(s.now, s.expiry)
}

/// The stamps of a list are all drawn.
pub open spec fn are_stamps(v: Seq<StampModel>) -> bool {
    forall|i: int| 0 <= i < v.len() ==> is_stamp(#[trigger] v[i])
}

/// A stamp of this moment.
pub fn stamp() -> (r: Stamp)
    ensures
        is_stamp(r@),
{
    let (now, expiry) = default_expiry();
    Stamp { id: new_id(), now, expiry }
}

} // verus!
