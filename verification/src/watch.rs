//! The standing watch: a recurring cycle that ingests a mission's sources, resolves, enriches a
//! bounded number of items, and reports what changed, with one named, low-noise escalation path
//! for the few things that warrant interrupting someone. Modeled on how a command center runs: a
//! fixed cadence and a pre-agreed channel, not ad-hoc polling.

use vstd::prelude::*;
use vstd::string::*;

use crate::adapters::usgs::{QuakeEvent, QuakeModel};
use crate::context::name_among;
use crate::double::{Double, ZERO};
use crate::geo::{geocode_entities_at, geocoded, Gazetteer};
use crate::models::{rows, CandidateModel, EdgeModel, EntityModel, WmEdge, WmEntity};
use crate::order::{ints, positions, rank_descending, ranking};
use crate::resolve::{expire_stale_entities_at, expired, stale_count};
use crate::table::{arrange, arranged, marked_places, places};
use crate::text::{
    before, chars_of, decimal, decimal_of, flat, flatten, opt_copy, opt_view, short_form, shorten,
    str_before, str_eq, string_of, views,
};
use crate::world::{entity_of, find_entity, World, WorldModel};

verus! {

/// Relation types whose appearance is worth an escalation on its own.
pub open spec fn alarming_types() -> Seq<Seq<char>> {
    seq![
        "suing"@,
        "sued_by"@,
        "acquired"@,
        "acquired_by"@,
        "merged_with"@,
        "ceo_of"@,
        "cfo_of"@,
        "resigned_from"@,
        "fired"@,
        "indicted"@,
        "charged"@,
        "sanctioned"@,
        "banned"@,
        "hacked"@,
        "breached"@,
    ]
}

/// The bits of the double 6.0, the magnitude from which on an earthquake is major.
pub const ESCALATE_QUAKE_MAG: u64 = 0x4018000000000000;

/// The weight from which on any relation is worth an escalation.
pub const ESCALATE_WEIGHT: u64 = 2;

/// How many new relations a cycle looks at.
pub const CYCLE_EDGES: usize = 200;

/// How many relations and how many events a digest lists.
pub const LISTED_EDGES: usize = 60;

pub const LISTED_QUAKES: usize = 20;

/// How a watch is run.
#[derive(Debug)]
pub struct WatchOptions {
    /// Seconds between two cycles.
    pub interval: u64,
    pub enrich_limit: usize,
    pub once: bool,
    pub quakes: Option<String>,
    pub out_dir: String,
    pub webhook: Option<String>,
}

/// A relation as a digest shows it.
#[derive(Debug)]
pub struct EdgeLine {
    pub from: String,
    pub edge_type: String,
    pub to: String,
    pub weight: u64,
    pub valid_at: Option<String>,
}

#[verifier::ext_equal]
pub struct LineModel {
    pub from: Seq<char>,
    pub edge_type: Seq<char>,
    pub to: Seq<char>,
    pub weight: u64,
    pub valid_at: Option<Seq<char>>,
}

impl View for EdgeLine {
    type V = LineModel;

    open spec fn view(&self) -> LineModel {
        LineModel {
            from: self.from@,
            edge_type: self.edge_type@,
            to: self.to@,
            weight: self.weight,
            valid_at: opt_view(self.valid_at),
        }
    }
}

/// What a cycle brought.
#[derive(Debug)]
pub struct Digest {
    pub started: String,
    pub ended: String,
    pub new_items: usize,
    pub resolved_items: usize,
    pub enriched_items: usize,
    pub ungrounded: usize,
    pub new_entities: usize,
    pub expired: usize,
    pub geocoded: usize,
    pub review_pending: usize,
    pub new_typed_edges: Vec<EdgeLine>,
    pub escalations: Vec<String>,
    pub info: Vec<String>,
    pub quakes: Vec<QuakeEvent>,
}

#[verifier::ext_equal]
pub struct DigestModel {
    pub started: Seq<char>,
    pub ended: Seq<char>,
    pub new_items: usize,
    pub resolved_items: usize,
    pub enriched_items: usize,
    pub ungrounded: usize,
    pub new_entities: usize,
    pub expired: usize,
    pub geocoded: usize,
    pub review_pending: usize,
    pub new_typed_edges: Seq<LineModel>,
    pub escalations: Seq<Seq<char>>,
    pub info: Seq<Seq<char>>,
    pub quakes: Seq<QuakeModel>,
}

impl View for Digest {
    type V = DigestModel;

    open spec fn view(&self) -> DigestModel {
        DigestModel {
            started: self.started@,
            ended: self.ended@,
            new_items: self.new_items,
            resolved_items: self.resolved_items,
            enriched_items: self.enriched_items,
            ungrounded: self.ungrounded,
            new_entities: self.new_entities,
            expired: self.expired,
            geocoded: self.geocoded,
            review_pending: self.review_pending,
            new_typed_edges: rows(self.new_typed_edges@),
            escalations: views(self.escalations@),
            info: views(self.info@),
            quakes: rows(self.quakes@),
        }
    }
}

impl DigestModel {
    /// Nothing has happened yet.
    pub open spec fn begun(started: Seq<char>) -> DigestModel {
        DigestModel {
            started,
            ended: seq![],
            new_items: 0,
            resolved_items: 0,
            enriched_items: 0,
            ungrounded: 0,
            new_entities: 0,
            expired: 0,
            geocoded: 0,
            review_pending: 0,
            new_typed_edges: seq![],
            escalations: seq![],
            info: seq![],
            quakes: seq![],
        }
    }
}

impl Digest {
    pub fn begin(started: &str) -> (r: Digest)
        ensures
            r@ == DigestModel::begun(started@),
    {
        let d = Digest {
            started: started.to_owned(),
            ended: String::new(),
            new_items: 0,
            resolved_items: 0,
            enriched_items: 0,
            ungrounded: 0,
            new_entities: 0,
            expired: 0,
            geocoded: 0,
            review_pending: 0,
            new_typed_edges: Vec::new(),
            escalations: Vec::new(),
            info: Vec::new(),
            quakes: Vec::new(),
        };
        assert(d@ =~= DigestModel::begun(started@));
        d
    }
}

// ---------------------------------------------------------------------------------------------
// What is new

/// The relation is new since `started`, typed and valid, and both of its ends are stored.
pub open spec fn is_new(w: WorldModel, e: EdgeModel, started: Seq<char>) -> bool {
    !before(e.first_seen, started) && e.edge_type != "mentioned_with"@ && e.invalid_at is None
        && entity_of(w.entities, e.from_id) is Some && entity_of(w.entities, e.to_id) is Some
}

/// The positions of the new relations, heaviest first, at most so many.
pub open spec fn new_edges(w: WorldModel, started: Seq<char>) -> Seq<int> {
    let at = places(w.edges.len() as int, |i: int| is_new(w, w.edges[i], started));
    let order = arranged(at, ranking(Seq::new(at.len(), |k: int| w.edges[at[k]].weight as int)));
    if order.len() > CYCLE_EDGES {
        order.take(CYCLE_EDGES as int)
    } else {
        order
    }
}

/// A relation between stored entities as a digest shows it.
pub open spec fn line_of(w: WorldModel, e: EdgeModel) -> LineModel {
    LineModel {
        from: entity_of(w.entities, e.from_id)->0.canonical_name,
        edge_type: e.edge_type,
        to: entity_of(w.entities, e.to_id)->0.canonical_name,
        weight: e.weight,
        valid_at: e.valid_at,
    }
}

/// The new relations as a digest shows them.
pub open spec fn new_lines(w: WorldModel, started: Seq<char>) -> Seq<LineModel> {
    let at = new_edges(w, started);
    Seq::new(at.len(), |k: int| line_of(w, w.edges[at[k]]))
}

/// The words on a relation.
pub open spec fn line_text(l: LineModel) -> Seq<char> {
    l.from + " —"@ + l.edge_type + "→ "@ + l.to + " (weight "@ + decimal(l.weight as nat) + (
    match l.valid_at {
        Some(v) => ", since "@ + short_form(v, 10),
        None => seq![],
    }) + ")"@
}

/// The relation warrants an escalation.
pub open spec fn alarms(l: LineModel) -> bool {
    alarming_types().contains(l.edge_type) || l.weight >= ESCALATE_WEIGHT
}

/// The words on the relations that warrant an escalation.
pub open spec fn line_alarms(ls: Seq<LineModel>) -> Seq<Seq<char>>
    decreases ls.len(),
{
    if ls.len() == 0 {
        seq![]
    } else if alarms(ls.last()) {
        line_alarms(ls.drop_last()).push(line_text(ls.last()))
    } else {
        line_alarms(ls.drop_last())
    }
}

/// How many entities were first seen since `started`.
pub open spec fn new_entity_count(es: Seq<EntityModel>, started: Seq<char>) -> int
    decreases es.len(),
{
    if es.len() == 0 {
        0
    } else {
        new_entity_count(es.drop_last(), started) + if before(es.last().first_seen, started) {
            0int
        } else {
            1
        }
    }
}

/// How many mentions wait for a human.
pub open spec fn review_count(cs: Seq<CandidateModel>) -> int
    decreases cs.len(),
{
    if cs.len() == 0 {
        0
    } else {
        review_count(cs.drop_last()) + if cs.last().status == "pending_review"@ {
            1int
        } else {
            0
        }
    }
}

fn find_new(world: &World, started: &str) -> (r: Vec<usize>)
    ensures
        positions(r@) == new_edges(world@, started@),
        forall|k: int| 0 <= k < r@.len() ==> #[trigger] r@[k] < world.edges@.len(),
        forall|k: int|
            0 <= k < r@.len() ==> is_new(
                world@,
                world.edges@[(#[trigger] r@[k]) as int]@,
                started@,
            ),
{
    let ghost w = world@;
    let ghost fits = |i: int| is_new(w, w.edges[i], started@);
    let mut marks: Vec<bool> = Vec::new();
    let mut i: usize = 0;
    while i < world.edges.len()
        invariant
            i <= world.edges@.len(),
            w == world@,
            fits == (|i: int| is_new(w, w.edges[i], started@)),
            marks@.len() == i,
            forall|j: int| 0 <= j < i ==> #[trigger] marks@[j] == fits(j),
        decreases world.edges.len() - i,
    {
        let e = &world.edges[i];
        assert(w.edges[i as int] == e@);
        marks.push(
            !str_before(e.first_seen.as_str(), started) && !str_eq(
                e.edge_type.as_str(),
                "mentioned_with",
            ) && e.invalid_at.is_none() && find_entity(
                &world.entities,
                e.from_id.as_str(),
            ).is_some() && find_entity(&world.entities, e.to_id.as_str()).is_some(),
        );
        i += 1;
    }
    let at = marked_places(&marks, Ghost(fits));
    let ghost av = positions(at@);
    let mut keys: Vec<i128> = Vec::new();
    let mut k: usize = 0;
    while k < at.len()
        invariant
            k <= at@.len(),
            w == world@,
            av == positions(at@),
            forall|j: int| 0 <= j < at@.len() ==> #[trigger] at@[j] < world.edges@.len(),
            keys@.len() == k,
            forall|j: int| 0 <= j < k ==> #[trigger] keys@[j] == w.edges[av[j]].weight as int,
        decreases at.len() - k,
    {
        assert(av[k as int] == at@[k as int]);
        keys.push(world.edges[at[k]].weight as i128);
        k += 1;
    }
    assert(ints(keys@) =~= Seq::new(av.len(), |k: int| w.edges[av[k]].weight as int));
    let order = rank_descending(&keys);
    let mut r = arrange(&at, &order);
    let ghost full = positions(r@);
    assert(full.len() == r@.len());
    proof {
        assert forall|k: int| 0 <= k < r@.len() implies (#[trigger] r@[k]) < world.edges@.len()
            && is_new(w, world.edges@[r@[k] as int]@, started@) by {
            assert(at@.contains(r@[k]));
            let j = choose|j: int| 0 <= j < at@.len() && at@[j] == r@[k];
            assert(fits(at@[j] as int));
        }
    }
    if r.len() > CYCLE_EDGES {
        let ghost all = r@;
        r.truncate(CYCLE_EDGES);
        assert(positions(r@) =~= full.take(CYCLE_EDGES as int));
        assert forall|k: int| 0 <= k < r@.len() implies (#[trigger] r@[k]) < world.edges@.len()
            && is_new(w, world.edges@[r@[k] as int]@, started@) by {
            assert(r@[k] == all[k]);
        }
    }
    r
}

fn to_line(world: &World, e: &WmEdge) -> (r: EdgeLine)
    requires
        entity_of(world@.entities, e@.from_id) is Some,
        entity_of(world@.entities, e@.to_id) is Some,
    ensures
        r@ == line_of(world@, e@),
{
    EdgeLine {
        from: name_among(&world.entities, e.from_id.as_str()),
        edge_type: e.edge_type.clone(),
        to: name_among(&world.entities, e.to_id.as_str()),
        weight: e.weight,
        valid_at: opt_copy(&e.valid_at),
    }
}

/// The new relations as a digest shows them.
pub fn find_lines(world: &World, started: &str) -> (r: Vec<EdgeLine>)
    ensures
        rows(r@) == new_lines(world@, started@),
{
    let at = find_new(world, started);
    let ghost w = world@;
    let ghost av = positions(at@);
    let ghost goal = Seq::new(av.len(), |k: int| line_of(w, w.edges[av[k]]));
    let mut out: Vec<EdgeLine> = Vec::new();
    let mut k: usize = 0;
    while k < at.len()
        invariant
            k <= at@.len(),
            w == world@,
            av == positions(at@),
            forall|j: int| 0 <= j < at@.len() ==> #[trigger] at@[j] < world.edges@.len(),
            forall|j: int|
                0 <= j < at@.len() ==> is_new(
                    w,
                    world.edges@[(#[trigger] at@[j]) as int]@,
                    started@,
                ),
            goal == Seq::new(av.len(), |k: int| line_of(w, w.edges[av[k]])),
            out@.len() == k,
            forall|j: int| 0 <= j < k ==> (#[trigger] out@[j])@ == goal[j],
        decreases at.len() - k,
    {
        assert(av[k as int] == at@[k as int]);
        let e = &world.edges[at[k]];
        assert(w.edges[av[k as int]] == e@);
        assert(is_new(w, e@, started@));
        out.push(to_line(world, e));
        k += 1;
    }
    assert(rows(out@) =~= goal);
    out
}

/// The words on a relation.
pub fn write_line(l: &EdgeLine) -> (r: String)
    ensures
        r@ == line_text(l@),
{
    let mut m = l.from.clone();
    m.append(" —");
    m.append(l.edge_type.as_str());
    m.append("→ ");
    m.append(l.to.as_str());
    m.append(" (weight ");
    m.append(decimal_of(l.weight).as_str());
    let mut since = String::new();
    if let Some(v) = &l.valid_at {
        since = ", since ".to_owned();
        since.append(shorten(v.as_str(), 10).as_str());
    }
    m.append(since.as_str());
    m.append(")");
    m
}

/// Whether the appearance of a relation of the type is worth an escalation on its own.
pub fn alarming(edge_type: &str) -> (r: bool)
    ensures
        r == alarming_types().contains(edge_type@),
{
    let types = vec![
        "suing",
        "sued_by",
        "acquired",
        "acquired_by",
        "merged_with",
        "ceo_of",
        "cfo_of",
        "resigned_from",
        "fired",
        "indicted",
        "charged",
        "sanctioned",
        "banned",
        "hacked",
        "breached",
    ];
    let ghost all = alarming_types();
    assert(types@.len() == all.len());
    assert forall|i: int| 0 <= i < types@.len() implies (#[trigger] types@[i])@ == all[i] by {}
    let mut i: usize = 0;
    while i < types.len()
        invariant
            i <= types@.len(),
            types@.len() == all.len(),
            all == alarming_types(),
            forall|j: int| 0 <= j < types@.len() ==> (#[trigger] types@[j])@ == all[j],
            forall|j: int| 0 <= j < i ==> #[trigger] all[j] != edge_type@,
        decreases types.len() - i,
    {
        if str_eq(types[i], edge_type) {
            assert(all[i as int] == edge_type@);
            return true;
        }
        assert(all[i as int] != edge_type@);
        i += 1;
    }
    false
}

fn find_alarms(ls: &Vec<EdgeLine>) -> (r: Vec<String>)
    ensures
        views(r@) == line_alarms(rows(ls@)),
{
    let ghost all = rows(ls@);
    let mut out: Vec<String> = Vec::new();
    let mut i: usize = 0;
    assert(all.take(0) =~= seq![]);
    assert(views(out@) =~= seq![]);
    while i < ls.len()
        invariant
            i <= ls@.len(),
            all == rows(ls@),
            views(out@) == line_alarms(all.take(i as int)),
        decreases ls.len() - i,
    {
        assert(all.take(i + 1).drop_last() =~= all.take(i as int));
        assert(all.take(i + 1).last() == ls@[i as int]@);
        let ghost done = views(out@);
        if alarming(ls[i].edge_type.as_str()) || ls[i].weight >= ESCALATE_WEIGHT {
            out.push(write_line(&ls[i]));
            assert(views(out@) =~= done.push(line_text(all[i as int])));
        }
        i += 1;
    }
    assert(all.take(i as int) =~= all);
    out
}

fn count_new_entities(es: &Vec<WmEntity>, started: &str) -> (r: usize)
    ensures
        r == new_entity_count(rows(es@), started@),
{
    let ghost all = rows(es@);
    let mut n: usize = 0;
    let mut i: usize = 0;
    assert(all.take(0) =~= seq![]);
    while i < es.len()
        invariant
            i <= es@.len(),
            all == rows(es@),
            n <= i,
            n == new_entity_count(all.take(i as int), started@),
        decreases es.len() - i,
    {
        assert(all.take(i + 1).drop_last() =~= all.take(i as int));
        assert(all.take(i + 1).last() == es@[i as int]@);
        if !str_before(es[i].first_seen.as_str(), started) {
            n += 1;
        }
        i += 1;
    }
    assert(all.take(i as int) =~= all);
    n
}

/// How many mentions wait for a human.
pub fn count_reviews(world: &World) -> (r: usize)
    ensures
        r == review_count(world@.candidates),
{
    let ghost all = world@.candidates;
    let mut n: usize = 0;
    let mut i: usize = 0;
    assert(all.take(0) =~= seq![]);
    while i < world.candidates.len()
        invariant
            i <= world.candidates@.len(),
            all == rows(world.candidates@),
            n <= i,
            n == review_count(all.take(i as int)),
        decreases world.candidates.len() - i,
    {
        assert(all.take(i + 1).drop_last() =~= all.take(i as int));
        assert(all.take(i + 1).last() == world.candidates@[i as int]@);
        if str_eq(world.candidates[i].status.as_str(), "pending_review") {
            n += 1;
        }
        i += 1;
    }
    assert(all.take(i as int) =~= all);
    n
}

/// Takes into the digest what the graph has had since the cycle started: new entities, mentions
/// that wait for a human, new typed relations, and those of them that warrant an escalation.
pub fn observe(d: &mut Digest, world: &World)
    ensures
        final(d)@.new_entities == new_entity_count(world@.entities, old(d)@.started),
        final(d)@.review_pending == review_count(world@.candidates),
        final(d)@ == (DigestModel {
            new_entities: final(d)@.new_entities,
            review_pending: final(d)@.review_pending,
            new_typed_edges: old(d)@.new_typed_edges + new_lines(world@, old(d)@.started),
            escalations: old(d)@.escalations + line_alarms(new_lines(world@, old(d)@.started)),
            ..old(d)@
        }),
{
    let ghost b = d@;
    d.new_entities = count_new_entities(&world.entities, d.started.as_str());
    d.review_pending = count_reviews(world);
    let mut lines = find_lines(world, d.started.as_str());
    let mut texts = find_alarms(&lines);
    let ghost lv = rows(lines@);
    let ghost tv = views(texts@);
    d.escalations.append(&mut texts);
    d.new_typed_edges.append(&mut lines);
    assert(views(d.escalations@) =~= b.escalations + tv);
    assert(rows(d.new_typed_edges@) =~= b.new_typed_edges + lv);
}

/// The housekeeping that the cadence owns: liveness decay and coordinates for new locations, at
/// the time `now`.
pub fn housekeep(d: &mut Digest, world: &mut World, g: &Gazetteer, now: &str)
    ensures
        ({
            let es = expired(old(world)@.entities, now@);
            let (geo, stats) = geocoded(old(world)@.geo, es, g@, false, now@);
            &&& final(world)@ == (WorldModel { entities: es, geo, ..old(world)@ })
            &&& final(d)@.expired == stale_count(old(world)@.entities, now@)
            &&& final(d)@ == (DigestModel {
                expired: final(d)@.expired,
                geocoded: stats.geocoded,
                ..old(d)@
            })
        }),
{
    d.expired = expire_stale_entities_at(world, now);
    let stats = geocode_entities_at(world, g, false, now);
    d.geocoded = stats.geocoded;
}

/// The words on an event that warrants an escalation.
pub open spec fn quake_alarm(q: QuakeModel) -> Option<Seq<char>> {
    if q.event_type != "earthquake"@ {
        Some(
            "USGS non-seismic event: "@ + q.title + " ("@ + q.event_type + ") — "@ + q.url,
        )
    } else if (match q.mag {
        Some(m) => m,
        None => Double { bits: ZERO },
    }).rank() >= ESCALATE_QUAKE_MAG {
        Some("USGS major earthquake: "@ + q.title + " — "@ + q.url)
    } else {
        None
    }
}

/// The words on the events that warrant an escalation.
pub open spec fn quake_alarms(qs: Seq<QuakeModel>) -> Seq<Seq<char>>
    decreases qs.len(),
{
    if qs.len() == 0 {
        seq![]
    } else {
        match quake_alarm(qs.last()) {
            Some(t) => quake_alarms(qs.drop_last()).push(t),
            None => quake_alarms(qs.drop_last()),
        }
    }
}

fn write_quake_alarm(q: &QuakeEvent) -> (r: Option<String>)
    ensures
        opt_view(r) == quake_alarm(q@),
{
    let mag = match q.mag {
        Some(m) => m,
        None => Double::from_bits(ZERO),
    };
    if q.is_non_seismic() {
        let mut m = "USGS non-seismic event: ".to_owned();
        m.append(q.title.as_str());
        m.append(" (");
        m.append(q.event_type.as_str());
        m.append(") — ");
        m.append(q.url.as_str());
        Some(m)
    } else if mag.at_least(Double::from_bits(ESCALATE_QUAKE_MAG)) {
        let mut m = "USGS major earthquake: ".to_owned();
        m.append(q.title.as_str());
        m.append(" — ");
        m.append(q.url.as_str());
        Some(m)
    } else {
        None
    }
}

/// Takes the events of a feed into the digest.
pub fn observe_quakes(d: &mut Digest, events: Vec<QuakeEvent>)
    ensures
        final(d)@ == (DigestModel {
            escalations: old(d)@.escalations + quake_alarms(rows(events@)),
            quakes: rows(events@),
            ..old(d)@
        }),
{
    let ghost all = rows(events@);
    let ghost begin = d@.escalations;
    let ghost b = d@;
    let mut i: usize = 0;
    assert(all.take(0) =~= seq![]);
    assert(views(d.escalations@) =~= begin + quake_alarms(all.take(0)));
    while i < events.len()
        invariant
            i <= events@.len(),
            all == rows(events@),
            begin == b.escalations,
            d@ == (DigestModel { escalations: views(d.escalations@), ..b }),
            views(d.escalations@) == begin + quake_alarms(all.take(i as int)),
        decreases events.len() - i,
    {
        assert(all.take(i + 1).drop_last() =~= all.take(i as int));
        assert(all.take(i + 1).last() == events@[i as int]@);
        let ghost done = views(d.escalations@);
        if let Some(t) = write_quake_alarm(&events[i]) {
            let ghost tv = t@;
            d.escalations.push(t);
            assert(views(d.escalations@) =~= done.push(tv));
            assert(done.push(tv) =~= begin + quake_alarms(all.take(i as int)).push(tv));
        }
        i += 1;
    }
    assert(all.take(i as int) =~= all);
    d.quakes = events;
}

/// Only escalations interrupt anyone; routine digests stay on disk.
pub fn interrupts(d: &Digest) -> (r: bool)
    ensures
        r == (d@.escalations.len() > 0),
{
    assert(d@.escalations.len() == d.escalations@.len());
    d.escalations.len() > 0
}

/// A relation that warrants an escalation is never missing from the escalations of its cycle.
pub proof fn law_alarms_are_raised(ls: Seq<LineModel>, i: int)
    requires
        0 <= i < ls.len(),
        alarms(ls[i]),
    ensures
        line_alarms(ls).contains(line_text(ls[i])),
    decreases ls.len(),
{
    let most = ls.drop_last();
    crate::matcher::lemma_push_contains(
        line_alarms(most),
        line_text(ls.last()),
        line_text(ls[i]),
    );
    if i < most.len() {
        assert(most[i] == ls[i]);
        law_alarms_are_raised(most, i);
    }
}

// ---------------------------------------------------------------------------------------------
// The digest

/// The first `n` of a list.
pub open spec fn first<T>(s: Seq<T>, n: int) -> Seq<T> {
    if s.len() > n {
        s.take(n)
    } else {
        s
    }
}

/// A point of a list.
pub open spec fn bullet(t: Seq<char>) -> Seq<char> {
    "- "@ + t + "\n"@
}

/// The point on a relation.
pub open spec fn edge_bullet(l: LineModel) -> Seq<char> {
    "- "@ + l.from + " —"@ + l.edge_type + "→ "@ + l.to + " (weight "@ + decimal(l.weight as nat)
        + ")\n"@
}

/// The point on an event.
pub open spec fn quake_bullet(q: QuakeModel) -> Seq<char> {
    "- "@ + q.title + " · "@ + q.event_type + " · "@ + short_form(q.time, 16) + "\n"@
}

/// The counts of a cycle.
pub open spec fn counts_text(d: DigestModel) -> Seq<char> {
    "# Watch digest — "@ + short_form(d.ended, 16) + "\n\ncycle "@ + short_form(d.started, 16)
        + " → "@ + short_form(d.ended, 16) + " · "@ + decimal(d.new_items as nat)
        + " new items · "@ + decimal(d.resolved_items as nat) + " resolved · "@ + decimal(
        d.enriched_items as nat,
    ) + " enriched ("@ + decimal(d.ungrounded as nat) + " ungrounded rejected) · "@ + decimal(
        d.new_entities as nat,
    ) + " new entities · "@ + decimal(d.expired as nat) + " expired · "@ + decimal(
        d.geocoded as nat,
    ) + " geocoded · "@ + decimal(d.review_pending as nat) + " awaiting review\n\n"@
}

/// The digest in full.
pub open spec fn digest_text(d: DigestModel) -> Seq<char> {
    counts_text(d) + "## ESCALATE ("@ + decimal(d.escalations.len()) + ")\n\n"@ + (
    if d.escalations.len() == 0 {
        "_nothing warrants interruption this cycle_\n"@
    } else {
        seq![]
    }) + flat(d.escalations.map_values(|t: Seq<char>| bullet(t))) + "\n## New typed relations ("@
        + decimal(d.new_typed_edges.len()) + ")\n\n"@ + flat(
        first(d.new_typed_edges, LISTED_EDGES as int).map_values(|l: LineModel| edge_bullet(l)),
    ) + (if d.quakes.len() == 0 {
        seq![]
    } else {
        "\n## USGS events in feed ("@ + decimal(d.quakes.len()) + ")\n\n"@ + flat(
            first(d.quakes, LISTED_QUAKES as int).map_values(|q: QuakeModel| quake_bullet(q)),
        )
    }) + (if d.info.len() == 0 {
        seq![]
    } else {
        "\n## Notes\n\n"@ + flat(d.info.map_values(|t: Seq<char>| bullet(t)))
    })
}

fn write_bullets(ts: &Vec<String>) -> (r: String)
    ensures
        r@ == flat(views(ts@).map_values(|t: Seq<char>| bullet(t))),
{
    let ghost goal = views(ts@).map_values(|t: Seq<char>| bullet(t));
    let mut out: Vec<String> = Vec::new();
    let mut i: usize = 0;
    while i < ts.len()
        invariant
            i <= ts@.len(),
            goal == views(ts@).map_values(|t: Seq<char>| bullet(t)),
            out@.len() == i,
            forall|j: int| 0 <= j < i ==> (#[trigger] out@[j])@ == goal[j],
        decreases ts.len() - i,
    {
        let mut m = "- ".to_owned();
        m.append(ts[i].as_str());
        m.append("\n");
        out.push(m);
        i += 1;
    }
    assert(views(out@) =~= goal);
    flatten(&out)
}

fn write_edges(ls: &Vec<EdgeLine>) -> (r: String)
    ensures
        r@ == flat(
            first(rows(ls@), LISTED_EDGES as int).map_values(|l: LineModel| edge_bullet(l)),
        ),
{
    let ghost goal = first(rows(ls@), LISTED_EDGES as int).map_values(
        |l: LineModel| edge_bullet(l),
    );
    let n: usize = if ls.len() > LISTED_EDGES {
        LISTED_EDGES
    } else {
        ls.len()
    };
    let mut out: Vec<String> = Vec::new();
    let mut i: usize = 0;
    while i < n
        invariant
            i <= n <= ls@.len(),
            n == goal.len(),
            goal == first(rows(ls@), LISTED_EDGES as int).map_values(
                |l: LineModel| edge_bullet(l),
            ),
            out@.len() == i,
            forall|j: int| 0 <= j < i ==> (#[trigger] out@[j])@ == goal[j],
        decreases n - i,
    {
        let l = &ls[i];
        let mut m = "- ".to_owned();
        m.append(l.from.as_str());
        m.append(" —");
        m.append(l.edge_type.as_str());
        m.append("→ ");
        m.append(l.to.as_str());
        m.append(" (weight ");
        m.append(decimal_of(l.weight).as_str());
        m.append(")\n");
        assert(goal[i as int] == edge_bullet(l@));
        out.push(m);
        i += 1;
    }
    assert(views(out@) =~= goal);
    flatten(&out)
}

fn write_quakes(qs: &Vec<QuakeEvent>) -> (r: String)
    ensures
        r@ == flat(
            first(rows(qs@), LISTED_QUAKES as int).map_values(|q: QuakeModel| quake_bullet(q)),
        ),
{
    let ghost goal = first(rows(qs@), LISTED_QUAKES as int).map_values(
        |q: QuakeModel| quake_bullet(q),
    );
    let n: usize = if qs.len() > LISTED_QUAKES {
        LISTED_QUAKES
    } else {
        qs.len()
    };
    let mut out: Vec<String> = Vec::new();
    let mut i: usize = 0;
    while i < n
        invariant
            i <= n <= qs@.len(),
            n == goal.len(),
            goal == first(rows(qs@), LISTED_QUAKES as int).map_values(
                |q: QuakeModel| quake_bullet(q),
            ),
            out@.len() == i,
            forall|j: int| 0 <= j < i ==> (#[trigger] out@[j])@ == goal[j],
        decreases n - i,
    {
        let q = &qs[i];
        let mut m = "- ".to_owned();
        m.append(q.title.as_str());
        m.append(" · ");
        m.append(q.event_type.as_str());
        m.append(" · ");
        m.append(shorten(q.time.as_str(), 16).as_str());
        m.append("\n");
        assert(goal[i as int] == quake_bullet(q@));
        out.push(m);
        i += 1;
    }
    assert(views(out@) =~= goal);
    flatten(&out)
}

fn write_counts(d: &Digest) -> (r: String)
    ensures
        r@ == counts_text(d@),
{
    let mut m = "# Watch digest — ".to_owned();
    m.append(shorten(d.ended.as_str(), 16).as_str());
    m.append("\n\ncycle ");
    m.append(shorten(d.started.as_str(), 16).as_str());
    m.append(" → ");
    m.append(shorten(d.ended.as_str(), 16).as_str());
    m.append(" · ");
    m.append(decimal_of(d.new_items as u64).as_str());
    m.append(" new items · ");
    m.append(decimal_of(d.resolved_items as u64).as_str());
    m.append(" resolved · ");
    m.append(decimal_of(d.enriched_items as u64).as_str());
    m.append(" enriched (");
    m.append(decimal_of(d.ungrounded as u64).as_str());
    m.append(" ungrounded rejected) · ");
    m.append(decimal_of(d.new_entities as u64).as_str());
    m.append(" new entities · ");
    m.append(decimal_of(d.expired as u64).as_str());
    m.append(" expired · ");
    m.append(decimal_of(d.geocoded as u64).as_str());
    m.append(" geocoded · ");
    m.append(decimal_of(d.review_pending as u64).as_str());
    m.append(" awaiting review\n\n");
    m
}

/// Writes the digest.
pub fn render(d: &Digest) -> (r: String)
    ensures
        r@ == digest_text(d@),
{
    assert(d@.escalations.len() == d.escalations@.len());
    assert(d@.new_typed_edges.len() == d.new_typed_edges@.len());
    assert(d@.quakes.len() == d.quakes@.len());
    assert(d@.info.len() == d.info@.len());
    let mut m = write_counts(d);
    m.append("## ESCALATE (");
    m.append(decimal_of(d.escalations.len() as u64).as_str());
    m.append(")\n\n");
    let none = if d.escalations.len() == 0 {
        "_nothing warrants interruption this cycle_\n".to_owned()
    } else {
        String::new()
    };
    m.append(none.as_str());
    m.append(write_bullets(&d.escalations).as_str());
    m.append("\n## New typed relations (");
    m.append(decimal_of(d.new_typed_edges.len() as u64).as_str());
    m.append(")\n\n");
    m.append(write_edges(&d.new_typed_edges).as_str());
    let mut events = String::new();
    if d.quakes.len() > 0 {
        events = "\n## USGS events in feed (".to_owned();
        events.append(decimal_of(d.quakes.len() as u64).as_str());
        events.append(")\n\n");
        events.append(write_quakes(&d.quakes).as_str());
    }
    m.append(events.as_str());
    let mut notes = String::new();
    if d.info.len() > 0 {
        notes = "\n## Notes\n\n".to_owned();
        notes.append(write_bullets(&d.info).as_str());
    }
    m.append(notes.as_str());
    m
}

/// A time without colons and hyphens.
pub open spec fn bare_time(s: Seq<char>) -> Seq<char>
    decreases s.len(),
{
    if s.len() == 0 {
        seq![]
    } else if s.last() == ':' || s.last() == '-' {
        bare_time(s.drop_last())
    } else {
        bare_time(s.drop_last()).push(s.last())
    }
}

/// What the file of a digest is called.
pub fn digest_name(d: &Digest) -> (r: String)
    ensures
        r@ == "digest-"@ + short_form(bare_time(d@.ended), 15) + ".md"@,
{
    let cs = chars_of(d.ended.as_str());
    let mut kept: Vec<char> = Vec::new();
    let mut i: usize = 0;
    assert(cs@.take(0) =~= seq![]);
    assert(kept@ =~= seq![]);
    while i < cs.len()
        invariant
            i <= cs@.len(),
            kept@ == bare_time(cs@.take(i as int)),
        decreases cs.len() - i,
    {
        assert(cs@.take(i + 1).drop_last() =~= cs@.take(i as int));
        assert(cs@.take(i + 1).last() == cs@[i as int]);
        if cs[i] != ':' && cs[i] != '-' {
            kept.push(cs[i]);
        }
        i += 1;
    }
    assert(cs@.take(i as int) =~= cs@);
    let stamp = string_of(&kept);
    let mut m = "digest-".to_owned();
    m.append(shorten(stamp.as_str(), 15).as_str());
    m.append(".md");
    m
}

} // verus!
