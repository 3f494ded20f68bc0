use enargeia::block::candidates_for;
use enargeia::double::Double;
use enargeia::extract::RegexExtractor;
use enargeia::matcher::{decide, Decision, Weights};
use enargeia::models::{now, RawItem, WmEdge, WmEntity, WmExtractionCandidate, WmSourceItem};
use enargeia::resolve::{
    apply_decision, best_candidate, content_hash, create_entity, create_entity_as, decorrelate,
    exclusivity, expire_stale_entities, expire_stale_entities_at, ingest_item, is_decorrelated,
    link_entities_typed, merge_entities, resolve_pending, touch_entity, upsert_resolved_entity,
    ResolveError,
};
use enargeia::world::{stamp, Stamp, World};

fn double(x: f64) -> Double {
    Double { bits: x.to_bits() }
}

fn entity<'a>(world: &'a World, id: &str) -> &'a WmEntity {
    world.entities.iter().find(|e| e.id == id).unwrap()
}

fn edge<'a>(world: &'a World, a: &str, b: &str, t: &str) -> &'a WmEdge {
    world.edges.iter().find(|e| e.from_id == a && e.to_id == b && e.edge_type == t).unwrap()
}

#[test]
fn decorrelated_pair_refuses_merge() {
    let mut world = World::new();
    let a = create_entity(&mut world, "Apple Inc", "organization", double(0.9));
    let b = create_entity(&mut world, "Apple Records", "organization", double(0.9));

    decorrelate(&mut world, &a, &b, Some("different companies")).unwrap();
    assert!(is_decorrelated(&world, &a, &b));
    assert!(is_decorrelated(&world, &b, &a), "decorrelation must be order-independent");

    let err = merge_entities(&mut world, &a, &b).unwrap_err();
    assert!(err.message().contains("decorrelated"));

    assert_eq!(world.entities.len(), 2);
}

#[test]
fn undecorrelated_pair_merges_successfully() {
    let mut world = World::new();
    let a = create_entity(&mut world, "Recorded Future", "organization", double(0.9));
    let b = create_entity(&mut world, "RF Inc", "organization", double(0.5));

    merge_entities(&mut world, &a, &b).unwrap();

    assert_eq!(world.entities.len(), 1);
    let kept = entity(&world, &a);
    assert!(kept.alias_list().contains(&"RF Inc".to_string()));
    let cands = candidates_for(&world, "RF Inc");
    assert!(cands.iter().any(|e| e.id == a));
}

#[test]
fn stale_entity_expires_and_touch_revives() {
    let mut world = World::new();
    let id = create_entity(&mut world, "Some Corp", "organization", double(0.5));
    world.entities[0].expiry_time = Some("2000-01-01T00:00:00Z".to_string());

    let expired = expire_stale_entities(&mut world);
    assert_eq!(expired, 1);
    assert!(!entity(&world, &id).is_live);

    touch_entity(&mut world, &id, &stamp());
    assert!(entity(&world, &id).is_live, "a fresh source touch should revive an expired entity");
}

#[test]
fn blocking_plus_matcher_merges_variant_and_rejects_lookalike() {
    let mut world = World::new();
    let mistral = create_entity(&mut world, "Mistral AI", "organization", double(0.8));
    let _coinbase = create_entity(&mut world, "Coinbase", "organization", double(0.8));
    let w = Weights::default();

    let best =
        best_candidate(&world, "Mistral", Some("organization"), &Vec::new(), &w, &now());
    let (ent, ms) = best.expect("candidate");
    assert_eq!(ent.id, mistral);
    assert_eq!(decide(ms.total, &w), Decision::Merge, "{ms:?}");

    let best =
        best_candidate(&world, "CoinShares", Some("organization"), &Vec::new(), &w, &now());
    if let Some((_, ms)) = best {
        assert_ne!(decide(ms.total, &w), Decision::Merge, "{ms:?}");
    }
}

#[test]
fn decorrelation_vetoes_tier1_merge_between_close_candidates() {
    let mut world = World::new();
    let a = create_entity(&mut world, "Mistral AI", "organization", double(0.8));
    let b = create_entity(&mut world, "Mistral Labs", "organization", double(0.8));
    let w = Weights::default();

    let (_, ms) =
        best_candidate(&world, "Mistral", Some("organization"), &Vec::new(), &w, &now()).unwrap();
    assert_eq!(
        decide(ms.total, &w),
        Decision::Merge,
        "sanity: merges before decorrelation {ms:?}"
    );

    decorrelate(&mut world, &a, &b, Some("different companies")).unwrap();
    let (_, ms) =
        best_candidate(&world, "Mistral", Some("organization"), &Vec::new(), &w, &now()).unwrap();
    assert_eq!(decide(ms.total, &w), Decision::Review, "{ms:?}");
    assert!(ms.contributions.iter().any(|(k, _)| k == "decorrelation_veto"));
}

#[test]
fn tier2_upsert_reuses_matching_entity() {
    let mut world = World::new();
    let id = create_entity(&mut world, "Federal Trade Commission", "organization", double(0.8));
    let got = upsert_resolved_entity(
        &mut world,
        "FTC",
        "Federal Trade Commission",
        "organization",
        double(0.9),
        &Weights::default(),
    );
    assert_eq!(got, id);
    assert!(entity(&world, &id).alias_list().contains(&"FTC".to_string()));
}

#[test]
fn newer_exclusive_fact_supersedes_older() {
    let mut world = World::new();
    let alice = create_entity(&mut world, "Alice", "person", double(0.9));
    let bob = create_entity(&mut world, "Bob", "person", double(0.9));
    let acme = create_entity(&mut world, "Acme", "organization", double(0.9));

    link_entities_typed(&mut world, &alice, &acme, "ceo_of", "s1", "2025-01-01T00:00:00+00:00");
    link_entities_typed(&mut world, &bob, &acme, "ceo_of", "s2", "2026-06-01T00:00:00+00:00");

    let old = edge(&world, &alice, &acme, "ceo_of");
    let new = edge(&world, &bob, &acme, "ceo_of");
    assert_eq!(old.invalid_at.as_deref(), Some("2026-06-01T00:00:00+00:00"));
    assert_eq!(old.superseded_by.as_deref(), Some(new.id.as_str()));
    assert!(new.invalid_at.is_none());
}

#[test]
fn older_fact_arriving_late_does_not_rewrite_history() {
    let mut world = World::new();
    let alice = create_entity(&mut world, "Alice", "person", double(0.9));
    let bob = create_entity(&mut world, "Bob", "person", double(0.9));
    let acme = create_entity(&mut world, "Acme", "organization", double(0.9));

    // The newer fact is processed first (feeds are not chronological).
    link_entities_typed(&mut world, &bob, &acme, "ceo_of", "s2", "2026-06-01T00:00:00+00:00");
    link_entities_typed(&mut world, &alice, &acme, "ceo_of", "s1", "2025-01-01T00:00:00+00:00");

    let old = edge(&world, &alice, &acme, "ceo_of");
    let new = edge(&world, &bob, &acme, "ceo_of");
    assert_eq!(old.valid_at.as_deref(), Some("2025-01-01T00:00:00+00:00"));
    assert_eq!(old.invalid_at.as_deref(), Some("2026-06-01T00:00:00+00:00"));
    assert_eq!(old.superseded_by.as_deref(), Some(new.id.as_str()));
    assert!(new.invalid_at.is_none(), "the current CEO must stay valid");
}

#[test]
fn non_exclusive_relations_coexist_and_accumulate() {
    let mut world = World::new();
    let a = create_entity(&mut world, "a16z", "organization", double(0.9));
    let x = create_entity(&mut world, "X Corp", "organization", double(0.9));
    let y = create_entity(&mut world, "Y Corp", "organization", double(0.9));
    link_entities_typed(&mut world, &a, &x, "invested_in", "s1", "2026-01-01T00:00:00+00:00");
    link_entities_typed(&mut world, &a, &y, "invested_in", "s2", "2026-02-01T00:00:00+00:00");
    link_entities_typed(&mut world, &a, &x, "invested_in", "s3", "2025-12-01T00:00:00+00:00");
    let e = edge(&world, &a, &x, "invested_in");
    assert_eq!(
        e.valid_at.as_deref(),
        Some("2025-12-01T00:00:00+00:00"),
        "earliest observation defines valid_at"
    );
    assert!(e.invalid_at.is_none());
    assert_eq!(e.weight, 2);
}

#[test]
fn reject_decision_creates_entity_and_decorrelates() {
    let mut world = World::new();
    let e = create_entity(&mut world, "Mistral AI", "organization", double(0.8));
    world.source_items.push(WmSourceItem {
        id: "s1".to_string(),
        source_type: "rss".to_string(),
        source_ref: "u".to_string(),
        content_hash: "h".to_string(),
        title: None,
        raw_text: "t".to_string(),
        ingested_at: "2026-01-01".to_string(),
        status: "pending".to_string(),
        license_class: "unknown".to_string(),
        published_at: None,
    });
    world.candidates.push(WmExtractionCandidate {
        id: "c1".to_string(),
        source_item_id: "s1".to_string(),
        mention_text: "Mistral".to_string(),
        mention_type_guess: Some("organization".to_string()),
        best_match_entity_id: Some(e.clone()),
        match_score: Some(4_000_000),
        status: "pending_review".to_string(),
        created_at: "2026-01-01".to_string(),
        feature_scores: None,
    });

    let msg =
        apply_decision(&mut world, "c1", "reject", "test", Some("different company")).unwrap();
    assert!(msg.contains("decorrelated"));
    let c = world.candidates.iter().find(|c| c.id == "c1").unwrap();
    assert_eq!(c.status, "rejected");
    let new_id = c.best_match_entity_id.clone().unwrap();
    assert_ne!(new_id, e);
    assert!(is_decorrelated(&world, &new_id, &e));
    assert_eq!(world.decisions.iter().filter(|d| d.candidate_id == "c1").count(), 1);
}

fn raw(source_ref: &str, text: &str, published_at: Option<&str>) -> RawItem {
    RawItem {
        source_type: "rss".to_string(),
        source_ref: source_ref.to_string(),
        title: None,
        text: text.to_string(),
        license_class: "unknown".to_string(),
        published_at: published_at.map(|s| s.to_string()),
    }
}

fn stamp_of(id: &str, now: &str, expiry: &str) -> Stamp {
    Stamp { id: id.to_string(), now: now.to_string(), expiry: expiry.to_string() }
}

fn review(id: &str, mention: &str, proposed: Option<&str>) -> WmExtractionCandidate {
    WmExtractionCandidate {
        id: id.to_string(),
        source_item_id: "s1".to_string(),
        mention_text: mention.to_string(),
        mention_type_guess: None,
        best_match_entity_id: proposed.map(|s| s.to_string()),
        match_score: None,
        status: "pending_review".to_string(),
        created_at: "2026-01-01".to_string(),
        feature_scores: None,
    }
}

#[test]
fn content_hash_is_sha256() {
    assert_eq!(
        content_hash(""),
        "e3b0c44298fc1c149afbf4c8996fb92427ae41e4649b934ca495991b7852b855"
    );
}

#[test]
fn item_is_ingested_once() {
    let mut world = World::new();
    let item = raw("http://x/1", "Hello", Some("2026-01-01T00:00:00+00:00"));
    let id = ingest_item(&mut world, &item).unwrap();
    assert_eq!(id.len(), 36);
    assert_eq!(world.source_items[0].content_hash, content_hash("http://x/1|Hello"));
    assert_eq!(world.source_items[0].status, "pending");
    assert_eq!(ingest_item(&mut world, &item), None);
    assert!(ingest_item(&mut world, &raw("http://x/2", "Hello", None)).is_some());
    assert_eq!(world.source_items.len(), 2);
}

#[test]
fn resolution_creates_merges_and_links() {
    let mut world = World::new();
    let day = Some("2026-01-01T00:00:00+00:00");
    ingest_item(&mut world, &raw("u1", "Acme Robotics hired staff from Nvidia.", day));
    ingest_item(&mut world, &raw("u2", "Acme Robotics expanded.", day));
    let stats =
        resolve_pending(&mut world, &RegexExtractor, &Weights::default(), 1).unwrap();
    assert_eq!((stats.items_processed, stats.new_entities), (1, 2));
    assert_eq!(stats.needs_llm, 1);
    assert_eq!(world.source_items[0].status, "needs_llm");
    assert_eq!(world.source_items[1].status, "pending");
    assert_eq!(world.edges.len(), 1);
    assert_eq!(world.edges[0].edge_type, "mentioned_with");
    assert_eq!(world.edges[0].valid_at.as_deref(), day);

    let stats =
        resolve_pending(&mut world, &RegexExtractor, &Weights::default(), 100).unwrap();
    assert_eq!((stats.items_processed, stats.auto_merged, stats.new_entities), (1, 1, 0));
    assert_eq!(world.source_items[1].status, "resolved");
    assert_eq!(world.entities.len(), 2);
    let last = world.candidates.last().unwrap();
    assert_eq!(last.status, "auto_merged");
    assert_eq!(last.match_score, last.feature_scores.as_ref().map(|f| f.total));
    // The span score of 0.3 is a single-precision number just above the floor.
    assert_eq!(f64::from_bits(world.entities[0].confidence.bits), 0.3f32 as f64);
}

#[test]
fn expiry_and_touch_use_the_given_times() {
    let mut world = World::new();
    let made = stamp_of("e1", "2026-01-01", "2026-01-31");
    create_entity_as(&mut world, "Acme", "organization", double(0.5), &made);
    assert_eq!(expire_stale_entities_at(&mut world, "2026-01-31"), 0);
    assert_eq!(expire_stale_entities_at(&mut world, "2026-02-01"), 1);
    assert_eq!(expire_stale_entities_at(&mut world, "2026-02-01"), 0);
    touch_entity(&mut world, "e1", &stamp_of("x", "2026-02-02", "2026-03-04"));
    let e = entity(&world, "e1");
    assert!(e.is_live);
    assert_eq!(e.last_seen, "2026-02-02");
    assert_eq!(e.expiry_time.as_deref(), Some("2026-03-04"));
    assert_eq!(e.first_seen, "2026-01-01");
    assert_eq!(expire_stale_entities_at(&mut world, "2026-03-04"), 0);
}

#[test]
fn new_entity_expires_in_thirty_days() {
    let mut world = World::new();
    let id = create_entity(&mut world, "Acme", "organization", double(0.5));
    let e = entity(&world, &id);
    let first = chrono::DateTime::parse_from_rfc3339(&e.first_seen).unwrap();
    let expiry = chrono::DateTime::parse_from_rfc3339(e.expiry_time.as_deref().unwrap()).unwrap();
    let days = (expiry - first).num_seconds();
    assert!((30 * 86_400 - 60..=30 * 86_400 + 60).contains(&days));
}

#[test]
fn merge_leaves_no_trace_of_the_absorbed() {
    let mut world = World::new();
    let a = create_entity(&mut world, "Alpha Group", "organization", double(0.9));
    let b = create_entity(&mut world, "Beta Group", "organization", double(0.4));
    let c = create_entity(&mut world, "Gamma", "organization", double(0.4));
    link_entities_typed(&mut world, &b, &c, "partner_of", "s1", "2026-01-01");
    link_entities_typed(&mut world, &a, &b, "mentioned_with", "s1", "2026-01-01");
    world.candidates.push(review("c1", "Beta", Some(&b)));
    merge_entities(&mut world, &a, &b).unwrap();
    assert!(world.entities.iter().all(|e| e.id != b));
    assert!(world.edges.iter().all(|e| e.from_id != b && e.to_id != b));
    assert_eq!(world.candidates[0].best_match_entity_id.as_deref(), Some(a.as_str()));
    assert!(world.edges.iter().any(|e| e.from_id == a && e.to_id == c));
}

#[test]
fn merge_and_decorrelation_errors() {
    let mut world = World::new();
    let a = create_entity(&mut world, "Alpha", "organization", double(0.9));
    let err = merge_entities(&mut world, &a, &a).unwrap_err();
    assert!(matches!(err, ResolveError::SameEntity));
    assert_eq!(err.message(), "keep_id and absorb_id must differ");
    let err = merge_entities(&mut world, &a, "missing").unwrap_err();
    assert!(matches!(err, ResolveError::MissingEntity));
    assert_eq!(err.message(), "both entities must exist to merge");
    let err = decorrelate(&mut world, &a, &a, None).unwrap_err();
    assert!(matches!(err, ResolveError::SelfDecorrelation));
    decorrelate(&mut world, &a, "b", None).unwrap();
    let err = merge_entities(&mut world, &a, "b").unwrap_err();
    assert!(matches!(err, ResolveError::Decorrelated { .. }));
    assert_eq!(
        err.message(),
        format!("refusing merge: {a} and b were previously decorrelated by a human decision")
    );
}

#[test]
fn decision_errors_leave_the_world_alone() {
    let mut world = World::new();
    world.candidates.push(review("c1", "Beta", None));
    world.candidates.push(review("c2", "Beta", Some("gone")));
    let err = apply_decision(&mut world, "c9", "confirm", "me", None).unwrap_err();
    assert!(matches!(err, ResolveError::CandidateNotFound));
    let err = apply_decision(&mut world, "c1", "confirm", "me", None).unwrap_err();
    assert!(matches!(err, ResolveError::NothingProposed));
    let err = apply_decision(&mut world, "c2", "confirm", "me", None).unwrap_err();
    assert!(matches!(err, ResolveError::ProposedEntityMissing));
    let err = apply_decision(&mut world, "c1", "may\"be", "me", None).unwrap_err();
    assert_eq!(err.message(), "unknown decision \"may\\\"be\" (expected confirm|reject|new)");
    assert!(world.decisions.is_empty());
    assert!(world.candidates.iter().all(|c| c.status == "pending_review"));
}

#[test]
fn confirmation_adds_the_alias() {
    let mut world = World::new();
    let a = create_entity(&mut world, "Mistral AI", "organization", double(0.9));
    world.candidates.push(review("c1", "Mistral", Some(&a)));
    let msg = apply_decision(&mut world, "c1", "confirm", "me", None).unwrap();
    assert_eq!(msg, format!("confirmed 'Mistral' → Mistral AI ({a})"));
    assert_eq!(entity(&world, &a).alias_list(), vec!["Mistral"]);
    assert_eq!(world.candidates[0].status, "confirmed");
    assert_eq!(world.decisions[0].actor, "me");
}

#[test]
fn new_decision_creates_without_parting() {
    let mut world = World::new();
    let a = create_entity(&mut world, "Mistral AI", "organization", double(0.9));
    world.candidates.push(review("c1", "Mistral", Some(&a)));
    let msg = apply_decision(&mut world, "c1", "new", "me", None).unwrap();
    let made = world.candidates[0].best_match_entity_id.clone().unwrap();
    assert_eq!(msg, format!("created 'Mistral' ({made})"));
    assert_eq!(f64::from_bits(entity(&world, &made).confidence.bits), 0.7);
    assert_eq!(entity(&world, &made).entity_type, "unknown");
    assert!(world.decorrelations.is_empty());
}

#[test]
fn exclusive_relations() {
    assert_eq!(exclusivity("ceo_of"), (true, true));
    assert_eq!(exclusivity("headquartered_in"), (true, false));
    assert_eq!(exclusivity("parent_of"), (false, true));
    assert_eq!(exclusivity("invested_in"), (false, false));
}

#[test]
fn middle_fact_ends_where_the_next_begins() {
    let mut world = World::new();
    for (who, at) in [("a", "2024"), ("c", "2026"), ("b", "2025")] {
        link_entities_typed(&mut world, who, "acme", "ceo_of", "s", at);
    }
    assert_eq!(edge(&world, "a", "acme", "ceo_of").invalid_at.as_deref(), Some("2026"));
    assert_eq!(edge(&world, "b", "acme", "ceo_of").invalid_at.as_deref(), Some("2026"));
    assert_eq!(edge(&world, "c", "acme", "ceo_of").invalid_at, None);
    // An entity is not related to itself.
    link_entities_typed(&mut world, "a", "a", "partner_of", "s", "2026");
    assert_eq!(world.edges.len(), 3);
    // Co-mentions have no direction.
    link_entities_typed(&mut world, "a", "b", "mentioned_with", "s1", "2026");
    link_entities_typed(&mut world, "b", "a", "mentioned_with", "s2", "2025");
    assert_eq!(world.edges.len(), 4);
    assert_eq!(world.edges[3].source_ids(), vec!["s1", "s2"]);
    assert_eq!(world.edges[3].valid_at.as_deref(), Some("2025"));
}

#[test]
fn recent_entities_count_as_context() {
    let mut world = World::new();
    create_entity_as(
        &mut world,
        "Mistral AI",
        "organization",
        double(0.8),
        &stamp_of("e1", "2026-01-01T00:00:00+00:00", "2026-02-01T00:00:00+00:00"),
    );
    let w = Weights::default();
    let recent = |now: &str| {
        let (_, ms) =
            best_candidate(&world, "Mistral", Some("organization"), &Vec::new(), &w, now).unwrap();
        ms.features.recent
    };
    assert!(recent("2026-01-30T23:59:59+00:00"));
    assert!(!recent("2026-01-31T00:00:00+00:00"));
    assert!(!recent("not a time"));
}

#[test]
fn expired_entity_is_still_met() {
    let mut world = World::new();
    create_entity(&mut world, "Mistral AI", "organization", double(0.8));
    world.entities[0].expiry_time = Some("2000-01-01".to_string());
    assert_eq!(expire_stale_entities(&mut world), 1);
    let found = candidates_for(&world, "Mistral");
    assert_eq!(found.len(), 1);
    assert!(!found[0].is_live);
}

#[test]
fn expiry_lies_thirty_days_ahead() {
    let s = stamp();
    let read = |t: &str| chrono::DateTime::parse_from_rfc3339(t).unwrap();
    assert_eq!((read(&s.expiry) - read(&s.now)).num_seconds(), 30 * 86_400);
    assert!(s.now < s.expiry);
    let mut world = World::new();
    let id = create_entity(&mut world, "Acme", "organization", double(0.9));
    touch_entity(&mut world, &id, &s);
    assert_eq!(world.entities[0].expiry_time.as_deref(), Some(s.expiry.as_str()));
    assert_eq!(expire_stale_entities_at(&mut world, &s.now), 0);
}
