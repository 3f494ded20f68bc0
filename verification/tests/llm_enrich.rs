use enargeia::double::Double;
use enargeia::extract::RegexExtractor;
use enargeia::json::Json;
use enargeia::llm_enrich::{
    decode_extraction, drop_ungrounded, enrich_item, next_batch, normalize_relation,
    pending_enrichment, snippet, EnrichStats,
};
use enargeia::matcher::Weights;
use enargeia::models::RawItem;
use enargeia::resolve::{ingest_item, resolve_pending};
use enargeia::world::World;

/// A parsed document as the library reads it.
fn json(v: &serde_json::Value) -> Json {
    match v {
        serde_json::Value::Null => Json::Null,
        serde_json::Value::Bool(b) => Json::Bool(*b),
        serde_json::Value::Number(n) => Json::Number {
            value: Double { bits: n.as_f64().unwrap().to_bits() },
            whole: n.as_i64(),
        },
        serde_json::Value::String(s) => Json::Text(s.clone()),
        serde_json::Value::Array(items) => Json::List(items.iter().map(json).collect()),
        serde_json::Value::Object(fields) => {
            Json::Object(fields.iter().map(|(k, v)| (k.clone(), json(v))).collect())
        }
    }
}

#[test]
fn decodes_duplicate_keys_and_array_relations() {
    let raw = r#"{"entities":[{"mention":"UAE","canonical_name":"United Arab Emirates","canonical_name":"United Arab Emirates","entity_type":"location","confidence":0.8},
        {"mention":"Fed","canonical_name":"Federal Reserve System","entity_type":"organization","confidence":0.9}],
        "relations":[["Fed","UAE","talks_with"],{"a":"UAE","b":"Fed","relation_type":"Hosted Talks With"}]}"#;
    let v: serde_json::Value = serde_json::from_str(raw).unwrap();
    let x = decode_extraction(&json(&v));
    assert_eq!(x.entities.len(), 2);
    assert_eq!(x.entities[0].canonical_name, "United Arab Emirates");
    assert_eq!(x.relations.len(), 2);
    assert_eq!(x.relations[0].relation_type, "talks_with");
    assert_eq!(x.relations[1].relation_type, "hosted_talks_with");
}

#[test]
fn tolerates_missing_fields() {
    let v: serde_json::Value =
        serde_json::from_str(r#"{"entities":[{"name":"Anthropic"}],"relations":"none"}"#).unwrap();
    let x = decode_extraction(&json(&v));
    assert_eq!(x.entities.len(), 1);
    assert_eq!(x.entities[0].entity_type, "other");
    assert!(x.relations.is_empty());
}

#[test]
fn relation_names_are_normalized_and_bounded() {
    assert_eq!(normalize_relation("  CEO-of  "), "ceo_of");
    assert_eq!(normalize_relation("__"), "related_to");
    assert_eq!(normalize_relation(""), "related_to");
    assert_eq!(normalize_relation(&"ab ".repeat(40)).chars().count(), 48);
}

#[test]
fn decodes_arrays_strings_and_clamps() {
    let raw = r#"{"entities":[["M","Canon","Person",7],"Solo",5,{"type":"x"},{"text":"T","label":"EVENT","confidence":-1}],
        "relations":[["a","b"],{"subject":"M","object":"Solo","predicate":"???"}]}"#;
    let v: serde_json::Value = serde_json::from_str(raw).unwrap();
    let x = decode_extraction(&json(&v));
    let got: Vec<(&str, &str, &str, f64)> = x
        .entities
        .iter()
        .map(|e| {
            (
                e.mention.as_str(),
                e.canonical_name.as_str(),
                e.entity_type.as_str(),
                f64::from_bits(e.confidence.bits),
            )
        })
        .collect();
    assert_eq!(
        got,
        vec![
            ("M", "Canon", "person", 1.0),
            ("Solo", "Solo", "other", 0.6),
            ("T", "T", "event", 0.0),
        ]
    );
    assert_eq!(x.relations.len(), 1);
    assert_eq!(x.relations[0].relation_type, "related_to");
}

fn pending_item(world: &mut World, text: &str) -> String {
    let item = RawItem {
        source_type: "rss".to_string(),
        source_ref: "u".to_string(),
        title: None,
        text: text.to_string(),
        license_class: "unknown".to_string(),
        published_at: Some("2026-01-01T00:00:00+00:00".to_string()),
    };
    let id = ingest_item(world, &item).unwrap();
    resolve_pending(world, &RegexExtractor, &Weights::default(), 10).unwrap();
    id
}

const TEXT: &str = "Alice Smith was named chief executive of Acme Robotics on Monday.";

const REPLY: &str = r#"{"entities":[
    {"mention":"Alice Smith","canonical_name":"Alice Smith","entity_type":"person","confidence":0.9},
    {"mention":"Acme Robotics","canonical_name":"Acme Robotics","entity_type":"organization","confidence":0.9}],
    "relations":[{"a":"Alice Smith","b":"Acme Robotics","relation_type":"ceo_of"},
                 {"a":"Alice Smith","b":"Acme Robotics","relation_type":"suing"},
                 {"a":"Alice Smith","b":"Nobody","relation_type":"knows"}]}"#;

#[test]
fn enrichment_settles_an_item_and_links_grounded_relations() {
    let mut world = World::new();
    let id = pending_item(&mut world, TEXT);
    assert_eq!(pending_enrichment(&world, 10), vec![id.clone()]);
    assert!(pending_enrichment(&world, 0).is_empty());
    let mut stats = EnrichStats::default();
    let v: serde_json::Value = serde_json::from_str(REPLY).unwrap();
    enrich_item(&mut world, &mut stats, &id, Some(&json(&v)), &Weights::default());
    assert_eq!(stats.candidates_processed, 1);
    assert_eq!(stats.entities_updated, 2);
    assert_eq!(stats.errors, 0);
    assert_eq!(stats.edges_created, 1);
    let typed: Vec<&str> = world
        .edges
        .iter()
        .map(|e| e.edge_type.as_str())
        .filter(|t| *t != "mentioned_with")
        .collect();
    assert_eq!(typed, vec!["ceo_of"]);
    assert!(pending_enrichment(&world, 10).is_empty());
    assert_eq!(world.source_items[0].status, "resolved");
}

#[test]
fn missing_reply_is_an_error_and_keeps_the_item_waiting() {
    let mut world = World::new();
    let id = pending_item(&mut world, TEXT);
    let mut stats = EnrichStats::default();
    enrich_item(&mut world, &mut stats, &id, None, &Weights::default());
    assert_eq!((stats.errors, stats.candidates_processed), (1, 0));
    assert_eq!(pending_enrichment(&world, 10), vec![id]);
    // An empty reply settles the item all the same.
    let id = world.source_items[0].id.clone();
    enrich_item(&mut world, &mut stats, &id, Some(&Json::Null), &Weights::default());
    assert!(pending_enrichment(&world, 10).is_empty());
}

#[test]
fn ungrounded_relations_are_counted() {
    let v: serde_json::Value = serde_json::from_str(REPLY).unwrap();
    let (x, dropped) = drop_ungrounded(decode_extraction(&json(&v)), TEXT);
    assert_eq!(x.relations.iter().filter(|r| r.relation_type == "suing").count(), 0);
    assert_eq!(x.relations.iter().filter(|r| r.relation_type == "ceo_of").count(), 1);
    assert!(dropped >= 1);
}

#[test]
fn snippet_is_the_first_four_thousand_characters() {
    let long = "é".repeat(5000);
    assert_eq!(snippet(&long).chars().count(), 4000);
    assert_eq!(snippet("short"), "short");
}

#[test]
fn batches_stay_within_the_limit() {
    assert_eq!(next_batch(25, 0, None), Some(10));
    assert_eq!(next_batch(25, 20, Some(10)), Some(5));
    assert_eq!(next_batch(25, 25, Some(5)), None);
    assert_eq!(next_batch(25, 10, Some(0)), None);
    assert_eq!(next_batch(0, 0, None), None);
}
