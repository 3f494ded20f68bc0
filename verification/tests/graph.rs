use enargeia::audit::{audit_relations, check_relation, prune_entities, Finding};
use enargeia::auth::{create_token_as, Role, TokenStore};
use enargeia::context::{
    answer, ask, bfs, cite, find_matching_entities, format_context, load_sources, names_of,
    scoped_slice, Moment, NO_MATCH,
};
use enargeia::dossier::{dossier, finish, prepare, DossierOptions};
use enargeia::double::Double;
use enargeia::mission::{
    brief, current_edges, export, group, ingest_items, licenses, live_types, out_dir, Mission,
    RunOptions,
};
use enargeia::models::{RawItem, WmEdge, WmEntity, WmExtractionCandidate, WmSourceItem};
use enargeia::server::{
    authorize, bearer, candidates, edges, entities, entity_edges, is_stale, license_scope,
    limit_of, receive, receive_at, size_of, status, Action,
};
use enargeia::watch::{alarming, digest_name, interrupts, observe, observe_quakes, render, Digest};
use enargeia::why::{find_entity, why};
use enargeia::world::{Decorrelation, GeoRow, ReviewDecision, Stamp, World};

fn double(x: f64) -> Double {
    Double { bits: x.to_bits() }
}

fn node(id: &str, name: &str, kind: &str, aliases: &str) -> WmEntity {
    WmEntity {
        id: id.to_string(),
        entity_type: kind.to_string(),
        canonical_name: name.to_string(),
        aliases: aliases.to_string(),
        external_ids: "{}".to_string(),
        confidence: double(0.8),
        metadata: "{}".to_string(),
        first_seen: "2026-01-01T00:00:00+00:00".to_string(),
        last_seen: "2026-02-01T00:00:00+00:00".to_string(),
        is_live: true,
        expiry_time: None,
        last_source_update_time: None,
    }
}

fn link(id: &str, from: &str, kind: &str, to: &str, sources: &str) -> WmEdge {
    WmEdge {
        id: id.to_string(),
        from_id: from.to_string(),
        to_id: to.to_string(),
        edge_type: kind.to_string(),
        weight: 1,
        metadata: "{}".to_string(),
        source_item_ids: sources.to_string(),
        first_seen: "2026-02-01T00:00:00+00:00".to_string(),
        last_seen: "2026-02-01T00:00:00+00:00".to_string(),
        valid_at: Some("2026-01-15T00:00:00+00:00".to_string()),
        invalid_at: None,
        superseded_by: None,
    }
}

fn source(id: &str, title: Option<&str>, text: &str, class: &str) -> WmSourceItem {
    WmSourceItem {
        id: id.to_string(),
        source_type: "rss".to_string(),
        source_ref: format!("http://x/{id}"),
        content_hash: id.to_string(),
        title: title.map(|s| s.to_string()),
        raw_text: text.to_string(),
        ingested_at: "2026-02-01T00:00:00+00:00".to_string(),
        status: "resolved".to_string(),
        license_class: class.to_string(),
        published_at: Some("2026-01-15T08:00:00+00:00".to_string()),
    }
}

fn mention(id: &str, item: &str, text: &str, entity: &str, status: &str) -> WmExtractionCandidate {
    WmExtractionCandidate {
        id: id.to_string(),
        source_item_id: item.to_string(),
        mention_text: text.to_string(),
        mention_type_guess: None,
        best_match_entity_id: Some(entity.to_string()),
        match_score: None,
        status: status.to_string(),
        created_at: "2026-02-01T00:00:00+00:00".to_string(),
        feature_scores: None,
    }
}

/// Alice leads Acme, which invested in Beta; Carol led Acme before.
fn sample() -> World {
    let mut w = World::new();
    w.entities.push(node("entity-acme", "Acme Robotics", "organization", r#"["Acme"]"#));
    w.entities.push(node("entity-alice", "Alice Smith", "person", "[]"));
    w.entities.push(node("entity-beta", "Beta Labs", "organization", "[]"));
    w.entities.push(node("entity-carol", "Carol Jones", "person", "[]"));
    let mut old = link("edge-old-ceo", "entity-carol", "ceo_of", "entity-acme", r#"["s1"]"#);
    old.valid_at = Some("2024-01-01T00:00:00+00:00".to_string());
    old.invalid_at = Some("2026-01-15T00:00:00+00:00".to_string());
    old.superseded_by = Some("edge-new-ceo".to_string());
    w.edges.push(old);
    w.edges.push(link("edge-new-ceo", "entity-alice", "ceo_of", "entity-acme", r#"["s1","s2"]"#));
    w.edges.push(link("edge-invest", "entity-acme", "invested_in", "entity-beta", r#"["s2"]"#));
    let mut met = link("edge-met", "entity-alice", "mentioned_with", "entity-beta", r#"["s1"]"#);
    met.weight = 3;
    w.edges.push(met);
    w.source_items.push(source(
        "s1",
        Some("Acme names a chief"),
        "Alice Smith was named chief executive of Acme Robotics.",
        "unknown",
    ));
    w.source_items.push(source("s2", None, "Alice Smith visited Beta Labs.", "commercial_clean"));
    w
}

fn ids(es: &[WmEdge]) -> Vec<&str> {
    es.iter().map(|e| e.id.as_str()).collect()
}

fn seeds(list: &[&str]) -> Vec<String> {
    list.iter().map(|s| s.to_string()).collect()
}

#[test]
fn walk_reaches_what_lies_within_its_depth() {
    let w = sample();
    let near = bfs(&w, &seeds(&["entity-carol"]), 1, None);
    assert_eq!(ids(&near.edges), vec!["edge-old-ceo"]);
    assert_eq!(near.entities.len(), 2);
    let far = bfs(&w, &seeds(&["entity-carol"]), 2, None);
    assert_eq!(far.entities.len(), 4);
    let none = bfs(&w, &seeds(&["entity-carol"]), 0, None);
    assert!(none.edges.is_empty());
    assert_eq!(none.entities.len(), 1);
}

#[test]
fn slice_as_of_a_time_shows_the_graph_of_that_time() {
    let w = sample();
    let then = bfs(&w, &seeds(&["entity-acme"]), 1, Some("2025-01-01"));
    assert_eq!(ids(&then.edges), vec!["edge-old-ceo"]);
    let now = bfs(&w, &seeds(&["entity-acme"]), 1, Some("2026-06-01"));
    assert_eq!(ids(&now.edges), vec!["edge-new-ceo", "edge-invest"]);
}

#[test]
fn expired_entities_are_not_met() {
    let mut w = sample();
    w.entities[0].is_live = false;
    let slice = bfs(&w, &seeds(&["entity-alice"]), 2, None);
    assert!(slice.entities.iter().all(|e| e.is_live));
    assert_eq!(ids(&slice.edges), vec!["edge-met", "edge-met"]);
    assert_eq!(slice.entities.len(), 2);
    let asked_for = bfs(&w, &seeds(&["entity-acme"]), 1, None);
    assert_eq!(asked_for.edges.len(), 3);
    let mut gone = sample();
    gone.entities.remove(0);
    let slice = bfs(&gone, &seeds(&["entity-alice"]), 1, None);
    assert_eq!(ids(&slice.edges), vec!["edge-met"]);
}

#[test]
fn questions_are_answered_from_what_is_in_force() {
    let w = sample();
    let now = ask(&w, "Acme Robotics", None, None).unwrap();
    assert!(now.prompt.contains("Alice Smith --[ceo_of]--> Acme Robotics"), "{}", now.prompt);
    assert!(!now.prompt.contains("Carol Jones --[ceo_of]--> Acme Robotics"), "{}", now.prompt);
    let then = ask(&w, "Acme Robotics", Some("2025-01-01"), None).unwrap();
    assert!(then.prompt.contains("Carol Jones --[ceo_of]--> Acme Robotics"), "{}", then.prompt);
    assert!(!then.prompt.contains("Alice Smith --[ceo_of]--> Acme Robotics"), "{}", then.prompt);
    let (present, _) = scoped_slice(&w, &seeds(&["entity-acme"]), 1, Moment::Present, None);
    assert_eq!(ids(&present.edges), vec!["edge-new-ceo", "edge-invest"]);
}

#[test]
fn license_scope_cites_only_its_class() {
    let w = sample();
    let (slice, refs) =
        scoped_slice(&w, &seeds(&["entity-acme"]), 1, Moment::Ever, Some("commercial_clean"));
    assert_eq!(ids(&slice.edges), vec!["edge-new-ceo", "edge-invest"]);
    assert_eq!(slice.edges[0].source_ids(), vec!["s2"]);
    assert!(refs.iter().all(|r| r.license_class == "commercial_clean"));
    let (all, refs) = scoped_slice(&w, &seeds(&["entity-acme"]), 1, Moment::Ever, None);
    assert_eq!(all.edges.len(), 3);
    assert_eq!(refs.len(), 2);
    assert_eq!(cite(&all.edges[1], &refs), "[1][2]");
}

#[test]
fn context_lists_entities_relations_and_sources() {
    let w = sample();
    let slice = bfs(&w, &seeds(&["entity-carol"]), 1, None);
    let sources = load_sources(&w, &slice);
    let (ctx, src) = format_context(&slice, &sources);
    assert!(ctx.contains("KNOWN ENTITIES:\n"));
    assert!(ctx.contains("- [entity-a] Acme Robotics (type: organization, confidence: 0.80)\n"));
    assert!(ctx.contains("Carol Jones --[ceo_of]--> Acme Robotics"));
    assert!(src.contains("http://x/s1"));
}

#[test]
fn questions_find_their_entities() {
    let w = sample();
    let found = find_matching_entities(&w, "acme robotics");
    assert_eq!(found[0].id, "entity-acme");
    assert_eq!(names_of(&found[0]), vec!["Acme Robotics", "Acme"]);
    let mut dead = sample();
    for e in dead.entities.iter_mut() {
        e.is_live = false;
    }
    assert!(find_matching_entities(&dead, "acme robotics").is_empty());
    assert!(ask(&dead, "acme robotics", None, None).is_none());
    assert!(NO_MATCH.starts_with("No entities in the graph match this question yet"));
}

#[test]
fn question_comes_with_its_context() {
    let w = sample();
    let inquiry = ask(&w, "Acme Robotics", None, None).unwrap();
    assert!(inquiry.prompt.starts_with("CONTEXT:\n"), "{}", inquiry.prompt);
    assert!(inquiry.prompt.ends_with("QUESTION: Acme Robotics"), "{}", inquiry.prompt);
    let text = answer("Alice leads it [1].", &inquiry.sources);
    assert!(text.starts_with("Alice leads it [1].\n\nSources:\n"), "{text}");
}

#[test]
fn audit_finds_and_deletes_what_no_source_supports() {
    let mut w = sample();
    assert!(matches!(check_relation(&w, &w.edges[1]), Finding::Grounded));
    assert!(matches!(check_relation(&w, &w.edges[2]), Finding::Invented));
    let mut bare = link("e", "entity-alice", "knows", "entity-beta", "[]");
    assert!(matches!(check_relation(&w, &bare), Finding::NoText));
    bare.to_id = "gone".to_string();
    assert!(matches!(check_relation(&w, &bare), Finding::Dangling));

    let (stats, lines) = audit_relations(&mut w, false);
    assert_eq!((stats.checked, stats.kept, stats.failed, stats.deleted), (3, 1, 2, 0));
    assert_eq!(w.edges.len(), 4);
    assert_eq!(lines[1], "Acme Robotics —invested_in→ Beta Labs  [edge-invest]");
    let (stats, _) = audit_relations(&mut w, true);
    assert_eq!(stats.deleted, 2);
    assert_eq!(ids(&w.edges), vec!["edge-new-ceo", "edge-met"]);
    let (stats, lines) = audit_relations(&mut w, true);
    assert_eq!((stats.checked, stats.failed), (1, 0));
    assert!(lines.is_empty());
}

#[test]
fn pruning_removes_an_entity_but_not_its_mentions() {
    let mut w = sample();
    w.candidates.push(mention("c1", "s2", "Beta", "entity-beta", "auto_merged"));
    w.geo.push(place("entity-beta"));
    let plausible = vec![true, true, false, true];
    let (checked, failing) = prune_entities(&mut w, &plausible, false);
    assert_eq!(checked, 4);
    assert_eq!(failing, vec!["Beta Labs [organization] entity-beta"]);
    assert_eq!(w.entities.len(), 4);
    prune_entities(&mut w, &plausible, true);
    assert_eq!(w.entities.len(), 3);
    assert_eq!(ids(&w.edges), vec!["edge-old-ceo", "edge-new-ceo"]);
    assert!(w.geo.is_empty());
    assert_eq!(w.candidates[0].best_match_entity_id, None);
    assert_eq!(w.candidates[0].status, "rejected_name");
}

fn place(id: &str) -> GeoRow {
    GeoRow {
        entity_id: id.to_string(),
        lat: double(48.85341),
        lon: double(2.3488),
        geo_confidence: double(0.8),
        geonameid: Some(1),
        place_name: Some("Paris, FR".to_string()),
        geocoded_at: "2026-02-01".to_string(),
    }
}

#[test]
fn entities_are_found_by_id_name_or_likeness() {
    let w = sample();
    assert_eq!(find_entity(&w, "entity-beta").unwrap().canonical_name, "Beta Labs");
    assert_eq!(find_entity(&w, "BETA labs").unwrap().id, "entity-beta");
    let err = find_entity(&w, "Zeta \"Z\"").err().unwrap();
    assert_eq!(err.message(), "no entity matches \"Zeta \\\"Z\\\"\"");
}

#[test]
fn trace_of_an_entity() {
    let mut w = sample();
    w.candidates.push(mention("c1", "s1", "Acme", "entity-acme", "needs_llm"));
    w.candidates.push(mention("c2", "s2", "ACME Corp", "entity-acme", "confirmed"));
    w.decisions.push(ReviewDecision {
        id: "d1".to_string(),
        candidate_id: "c2".to_string(),
        decision: "confirm".to_string(),
        actor: "me".to_string(),
        reason: Some("same firm".to_string()),
        decided_at: "2026-02-02T10:11:12+00:00".to_string(),
    });
    w.decorrelations.push(Decorrelation {
        id: "x1".to_string(),
        entity_a_id: "entity-acme".to_string(),
        entity_b_id: "entity-beta".to_string(),
        reason: None,
        decided_at: "2026-02-03T10:11:12+00:00".to_string(),
    });
    let text = why(&w, "entity-acme").unwrap();
    let expected = "Acme Robotics [organization] id=entity-acme\n  aliases: Acme\n  \
confidence 0.80 · live=true · first_seen 2026-01-01T00:00 · last_seen 2026-02-01T00:00 · expiry none\n\
\nMENTIONS (2):\n  \
- \"Acme\" [?] → needs_llm (tier1, created here)\n      \
source: 2026-01-15T08:00 · Acme names a chief — http://x/s1 (unknown)\n      candidate c1\n  \
- \"ACME Corp\" [?] → confirmed (tier2/human)\n      \
source: 2026-01-15T08:00 · (untitled) — http://x/s2 (commercial_clean)\n      candidate c2\n\
\nRELATIONS (3):\n  \
- ← Carol Jones [ceo_of] weight 1 · valid 2024-01-01T00:00 → 2026-01-15T00:00 (superseded by edge-new) · 1 source(s)\n  \
- ← Alice Smith [ceo_of] weight 1 · valid since 2026-01-15T00:00 · 2 source(s)\n  \
- → Beta Labs [invested_in] weight 1 · valid since 2026-01-15T00:00 · 1 source(s)\n\
\nHUMAN DECISIONS (2):\n  \
- confirm \"ACME Corp\" by me at 2026-02-02T10:11 — same firm\n  \
- DECORRELATED from Beta Labs (entity-beta) at 2026-02-03T10:11\n";
    assert_eq!(text, expected);
    assert!(why(&w, "entity-carol").unwrap().ends_with("\nHUMAN DECISIONS (0):\n  (none)\n"));
    assert!(why(&w, "nothing of the kind").is_err());
}

#[test]
fn dossier_of_an_entity() {
    let mut w = sample();
    w.geo.push(place("entity-alice"));
    let opts = DossierOptions { as_of: None, license_filter: None };
    let text = dossier(&w, "entity-alice", &opts).unwrap();
    let expected = "# Dossier: Alice Smith\n\n\
**Type** person · **Aliases** — · **Confidence** 0.80 · **Live** true · **First seen** 2026-01-01 · **Last seen** 2026-02-01 · **Location** 48.853, 2.349 (Paris, FR)\n\n\
## Timeline (1 typed relations)\n\n\
- **2026-01-15 –** Alice Smith → `ceo_of` Acme Robotics [1][2]\n\
\n## Network (top 1 of 1 co-mentions)\n\n\
- Beta Labs [organization] · 3 shared source(s) [1]\n\
\n## Sources (2)\n\n\
1. 2026-01-15 · Acme names a chief — http://x/s1 (unknown)\n\
2. 2026-01-15 · (untitled) — http://x/s2 (commercial_clean)\n\
\n---\n_3 entities · 2 relations in scope · public sources only; professional conduct only. `enargeia why \"Alice Smith\"` for the full provenance trace._\n";
    assert_eq!(text, expected);

    let draft = prepare(&w, "entity-alice", &opts).unwrap();
    assert!(draft.prompt.as_ref().unwrap().starts_with("SUBJECT: Alice Smith\nCONTEXT\n"));
    let written = finish(&draft, Some(("local · m", "  She leads Acme [1].\n")));
    assert!(written.contains("\n## Assessment (local · m)\n\nShe leads Acme [1].\n\n## Sources"));
    assert_eq!(finish(&draft, None), text);

    let clean = DossierOptions { as_of: Some("2026-03-01"), license_filter: Some("commercial_clean") };
    let text = dossier(&w, "entity-alice", &clean).unwrap();
    assert!(text.contains(" · **As of** 2026-03-01\n"));
    assert!(text.contains(" · citing commercial_clean sources only · "));
    assert!(!text.contains("http://x/s1"));
    assert!(dossier(&w, "nothing of the kind", &opts).is_err());
}

#[test]
fn digest_escalates_what_matters() {
    let w = sample();
    let mut d = Digest::begin("2026-02-01T00:00:00+00:00");
    observe(&mut d, &w);
    assert_eq!(d.new_entities, 0);
    assert_eq!(d.new_typed_edges.len(), 2);
    assert_eq!(d.escalations, vec!["Alice Smith —ceo_of→ Acme Robotics (weight 1, since 2026-01-15)"]);
    assert!(interrupts(&d));
    assert!(alarming("hacked") && !alarming("invested_in"));

    observe_quakes(&mut d, vec![quake("earthquake", 5.9), quake("earthquake", 6.0), quake("explosion", 1.0)]);
    assert_eq!(
        d.escalations[1..],
        [
            "USGS major earthquake: title — url".to_string(),
            "USGS non-seismic event: title (explosion) — url".to_string(),
        ]
    );
    assert_eq!(d.quakes.len(), 3);
}

fn quake(kind: &str, mag: f64) -> enargeia::adapters::usgs::QuakeEvent {
    enargeia::adapters::usgs::QuakeEvent {
        id: "q".to_string(),
        mag: Some(double(mag)),
        place: "p".to_string(),
        time: "2026-02-01T01:02:03+00:00".to_string(),
        event_type: kind.to_string(),
        title: "title".to_string(),
        url: "url".to_string(),
        lat: double(0.0),
        lon: double(0.0),
        depth_km: double(1.0),
        status: "reviewed".to_string(),
    }
}

#[test]
fn digest_as_text() {
    let mut d = Digest::begin("2026-02-01T00:00:00+00:00");
    d.ended = "2026-02-01T00:05:09+00:00".to_string();
    d.new_items = 4;
    d.info.push("enrichment skipped: no key".to_string());
    assert!(!interrupts(&d));
    observe_quakes(&mut d, vec![quake("earthquake", 3.0)]);
    assert_eq!(
        render(&d),
        "# Watch digest — 2026-02-01T00:05\n\n\
cycle 2026-02-01T00:00 → 2026-02-01T00:05 · 4 new items · 0 resolved · 0 enriched (0 ungrounded rejected) · 0 new entities · 0 expired · 0 geocoded · 0 awaiting review\n\n\
## ESCALATE (0)\n\n_nothing warrants interruption this cycle_\n\
\n## New typed relations (0)\n\n\
\n## USGS events in feed (1)\n\n- title · earthquake · 2026-02-01T01:02\n\
\n## Notes\n\n- enrichment skipped: no key\n"
    );
    assert_eq!(digest_name(&d), "digest-20260201T000509.md");
}

fn mission_of(questions: &[&str]) -> Mission {
    Mission {
        name: "demo".to_string(),
        description: "What happened.".to_string(),
        target_class: "public companies".to_string(),
        rss: Vec::new(),
        gdelt: Vec::new(),
        questions: seeds(questions),
        as_of: None,
    }
}

#[test]
fn brief_of_a_mission() {
    let mut w = sample();
    w.candidates.push(mention("c1", "s1", "Acme", "entity-acme", "auto_merged"));
    w.candidates.push(mention("c2", "s2", "Acme", "entity-acme", "confirmed"));
    w.candidates.push(mention("c3", "s2", "Beta", "entity-beta", "needs_llm"));
    let text = brief(&mission_of(&["Who leads Acme?"]), &w, "2026-02-01 00:00 UTC", &seeds(&["Alice [1]."]));
    let expected = "# demo — intelligence brief\n\n\
Generated 2026-02-01 00:00 UTC by `enargeia mission run`. What happened.\n\n\
**Scope:** public companies\n\n\
**Corpus:** 2 source items (1 commercial_clean, 1 unknown); **graph:** 4 live entities, 3 valid relations (2 typed).\n\n\
Every claim below cites its source by number; the graph slice used for each answer is noted. Answers come only from the resolved graph — if the sources did not support a claim, the answer says so.\n\n\
## 1. Who leads Acme?\n\nAlice [1].\n\n\
## Appendix A — entity counts by type\n\n- organization: 2\n- person: 2\n\
\n## Appendix B — most corroborated entities (distinct sources)\n\n- Acme Robotics [organization] — 2\n\
\n## Appendix C — typed relations (current)\n\n\
- Alice Smith —ceo_of→ Acme Robotics (weight 1, since 2026-01-15)\n\
- Acme Robotics —invested_in→ Beta Labs (weight 1, since 2026-01-15)\n";
    assert_eq!(text, expected);
}

#[test]
fn export_holds_what_is_live_and_valid() {
    let mut w = sample();
    w.entities[3].is_live = false;
    let (es, ls) = export(&w);
    assert_eq!(es.len(), 3);
    assert_eq!(es[0].aliases, vec!["Acme"]);
    assert_eq!(ls.len(), 3);
    assert_eq!(ls[0].sources, vec!["s1", "s2"]);
    assert_eq!(ls[0].weight, 1);
}

#[test]
fn counts_by_group() {
    let w = sample();
    assert_eq!(
        group(&seeds(&["b", "a", "b"])),
        vec![("b".to_string(), 2), ("a".to_string(), 1)]
    );
    assert_eq!(licenses(&w).len(), 2);
    assert_eq!(live_types(&w), vec![("organization".to_string(), 2), ("person".to_string(), 2)]);
    assert_eq!(current_edges(&w).len(), 3);
    let opts = RunOptions { skip_ingest: true, skip_enrich: true, enrich_limit: 0, out_dir: None };
    assert_eq!(out_dir(&mission_of(&[]), &opts), "missions/demo");
    let opts = RunOptions { out_dir: Some("elsewhere".to_string()), ..opts };
    assert_eq!(out_dir(&mission_of(&[]), &opts), "elsewhere");
}

#[test]
fn only_new_items_are_counted() {
    let mut w = World::new();
    let item = |text: &str| RawItem {
        source_type: "rss".to_string(),
        source_ref: "u".to_string(),
        title: None,
        text: text.to_string(),
        license_class: "unknown".to_string(),
        published_at: None,
    };
    assert_eq!(ingest_items(&mut w, &vec![item("a"), item("b"), item("a")]), 2);
    assert_eq!(ingest_items(&mut w, &vec![item("b"), item("c")]), 1);
}

#[test]
fn bearer_tokens_are_checked() {
    assert_eq!(bearer(Some("Bearer abc")).as_deref(), Some("abc"));
    assert_eq!(bearer(Some("Basic abc")), None);
    assert_eq!(bearer(None), None);
    assert!(authorize(None, None).is_ok());
    assert!(authorize(Some("abc"), Some("Bearer abc")).is_ok());
    assert!(authorize(Some("abc"), Some("bearer abc")).is_err());
    let err = authorize(Some("abc"), None).err().unwrap();
    assert_eq!(err.message(), "missing or invalid bearer token");
}

#[test]
fn limits_are_read_and_clamped() {
    assert_eq!(limit_of(None, 50, 500), 50);
    assert_eq!(limit_of(Some("x"), 50, 500), 50);
    assert_eq!(limit_of(Some("-3"), 50, 500), 1);
    assert_eq!(limit_of(Some("501"), 50, 500), 500);
    assert_eq!(limit_of(Some("7"), 50, 500), 7);
    assert_eq!(size_of(Some("-3"), 3000, 20000), 3000);
    assert_eq!(size_of(Some("0"), 3000, 20000), 1);
    assert!(is_stale("a", "b", 0, 300));
    assert!(is_stale("a", "a", 301, 300));
    assert!(!is_stale("a", "a", 300, 300));
}

#[test]
fn listings() {
    let mut w = sample();
    w.entities[2].last_seen = "2026-03-01".to_string();
    w.entities[1].is_live = false;
    let names = |es: Vec<WmEntity>| es.into_iter().map(|e| e.canonical_name).collect::<Vec<_>>();
    assert_eq!(names(entities(&w, None, true, None, 2)), vec!["Beta Labs", "Acme Robotics"]);
    assert_eq!(names(entities(&w, None, false, Some("person"), 9)), vec!["Alice Smith", "Carol Jones"]);
    assert_eq!(ids(&entity_edges(&w, "entity-alice")), vec!["edge-new-ceo", "edge-met"]);
    assert_eq!(ids(&edges(&w, None, None, 9)), vec!["edge-new-ceo", "edge-invest"]);
    assert_eq!(ids(&edges(&w, Some("entity-acme"), None, 1)), vec!["edge-new-ceo"]);
    assert_eq!(
        ids(&edges(&w, Some("entity-acme"), Some("2025"), 9)),
        vec!["edge-old-ceo"]
    );
    w.candidates.push(mention("c1", "s1", "Acme", "entity-acme", "pending_review"));
    w.candidates.push(mention("c2", "s1", "Acme", "entity-acme", "pending_review"));
    w.candidates[1].match_score = Some(4_000_000);
    assert_eq!(candidates(&w, "pending_review", 9), vec![1, 0]);
    assert!(candidates(&w, "resolved", 9).is_empty());
    let s = status(&w);
    assert_eq!((s.entities, s.live_entities, s.valid_edges), (4, 3, 3));
    assert_eq!((s.pending_review, s.source_items, s.geocoded), (2, 2, 0));
}

const DAY: &str = "2026-09-08T10:00:00+00:00";

fn store_of(role: Role, limit: Option<i64>, license: Option<&str>) -> TokenStore {
    let mut store = TokenStore::new();
    let stamp =
        Stamp { id: "t1".to_string(), now: DAY.to_string(), expiry: DAY.to_string() };
    create_token_as(&mut store, "acme", role, limit, license, "enk_x", &stamp);
    store
}

#[test]
fn requests_are_answered_by_standing_role_and_quota() {
    let header = Some("Bearer enk_x");
    let mut store = store_of(Role::Client, Some(1), None);
    let d = receive_at(&mut store, None, None, Action::Ask, DAY).err().unwrap();
    assert_eq!((d.code(), d.message().as_str()), (401, "missing or invalid bearer token"));
    for action in [Action::Decide, Action::Decorrelate] {
        let d = receive_at(&mut store, None, header, action, DAY).err().unwrap();
        assert_eq!(d.code(), 403);
    }
    assert!(store.usage.is_empty());
    let (who, left) = receive_at(&mut store, None, header, Action::Ask, DAY).ok().unwrap();
    assert_eq!((who.name.as_str(), left), ("acme", Some(0)));
    assert_eq!(license_scope(&who).as_deref(), Some("commercial_clean"));
    let d = receive_at(&mut store, None, header, Action::Ask, DAY).err().unwrap();
    assert_eq!(d.code(), 429);
    assert_eq!(d.message(), "daily ask quota of 1 exhausted for acme; resets at 00:00 UTC");
    assert_eq!(store.usage[0].asks, 1);

    let mut store = store_of(Role::Analyst, None, Some("unknown"));
    let (who, left) = receive_at(&mut store, None, header, Action::Decide, DAY).ok().unwrap();
    assert_eq!(left, None);
    assert_eq!(license_scope(&who).as_deref(), Some("unknown"));
    let d = receive_at(&mut store, None, header, Action::Decorrelate, DAY).err().unwrap();
    assert_eq!(d.code(), 403);
    let (root, _) = receive_at(&mut store, Some("r"), Some("Bearer r"), Action::Decorrelate, DAY)
        .ok()
        .unwrap();
    assert_eq!(license_scope(&root), None);
    store.tokens[0].row.role = "boss".to_string();
    let d = receive_at(&mut store, None, header, Action::Ask, DAY).err().unwrap();
    assert_eq!(d.code(), 500);
    assert_eq!(d.message(), "unknown role \"boss\"; expected operator | analyst | client");

    let mut open = TokenStore::new();
    let (who, _) = receive(&mut open, None, None, Action::Decorrelate).ok().unwrap();
    assert_eq!(who.name, "anonymous (no token configured)");
}
