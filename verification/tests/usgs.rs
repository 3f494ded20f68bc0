use enargeia::adapters::usgs::{check_feed, feed_url, parse};
use enargeia::double::Double;
use enargeia::json::Json;

/// A parsed document as the library reads it.
fn json(v: &serde_json::Value) -> Json {
    match v {
        serde_json::Value::Null => Json::Null,
        serde_json::Value::Bool(b) => Json::Bool(*b),
        serde_json::Value::Number(n) => Json::Number {
            value: Double { bits: n.as_f64().unwrap().to_bits() },
            whole: n.as_i64(),
        },
        serde_json::Value::String(s) => Json::Text(s.clone()),
        serde_json::Value::Array(items) => Json::List(items.iter().map(json).collect()),
        serde_json::Value::Object(fields) => {
            Json::Object(fields.iter().map(|(k, v)| (k.clone(), json(v))).collect())
        }
    }
}

#[test]
fn parses_feed_and_flags_non_seismic() {
    let raw = r#"{
        "type": "FeatureCollection",
        "features": [
            {"type": "Feature", "id": "us1",
             "properties": {"mag": 4.7, "place": "139 km NNE of Hihifo, Tonga", "time": 1788956294599,
                            "type": "earthquake", "title": "M 4.7 - Tonga", "url": "https://x/us1", "status": "reviewed"},
             "geometry": {"type": "Point", "coordinates": [-173.1193, -14.8771, 10]}},
            {"type": "Feature", "id": "nv2",
             "properties": {"mag": 1.9, "place": "Nevada", "time": 1788956294599,
                            "type": "explosion", "title": "M 1.9 Explosion - Nevada", "url": "https://x/nv2", "status": "automatic"},
             "geometry": {"type": "Point", "coordinates": [-115.0, 37.0, 0]}},
            {"type": "Feature", "id": "bad", "properties": {}, "geometry": {"type": "Point", "coordinates": []}}
        ]
    }"#;
    let v: serde_json::Value = serde_json::from_str(raw).unwrap();
    let events = parse(&json(&v));
    assert_eq!(events.len(), 2, "malformed geometry is skipped");
    assert_eq!(f64::from_bits(events[0].lat.bits), -14.8771);
    assert_eq!(f64::from_bits(events[0].depth_km.bits), 10.0);
    assert!(events[0].time.starts_with("2026-09-"));
    assert!(!events[0].is_non_seismic());
    assert!(events[1].is_non_seismic());
    assert!(check_feed("2.5_day").is_ok());
    assert!(check_feed("../etc").is_err());
}

#[test]
fn missing_properties_have_defaults() {
    let raw = r#"{"features":[{"geometry":{"coordinates":[1.5,2.5]}}]}"#;
    let v: serde_json::Value = serde_json::from_str(raw).unwrap();
    let events = parse(&json(&v));
    assert_eq!(events.len(), 1);
    assert_eq!(events[0].id, "");
    assert!(events[0].mag.is_none());
    assert_eq!(events[0].event_type, "earthquake");
    assert_eq!(events[0].time, "1970-01-01T00:00:00+00:00");
    assert_eq!(f64::from_bits(events[0].depth_km.bits), 0.0);
    assert!(parse(&Json::Null).is_empty());
}

#[test]
fn times_are_milliseconds_since_the_epoch() {
    let raw = r#"{"features":[{"properties":{"time":1788956294599},"geometry":{"coordinates":[0,0]}},
        {"properties":{"time":9223372036854775807},"geometry":{"coordinates":[0,0]}}]}"#;
    let v: serde_json::Value = serde_json::from_str(raw).unwrap();
    let events = parse(&json(&v));
    assert_eq!(events[0].time, "2026-09-09T12:18:14.599+00:00");
    assert_eq!(events[1].time, "");
}

#[test]
fn feed_addresses() {
    assert_eq!(
        feed_url("4.5_week").unwrap(),
        "https://earthquake.usgs.gov/earthquakes/feed/v1.0/summary/4.5_week.geojson"
    );
    let err = feed_url("nope").unwrap_err();
    assert_eq!(
        err.message(),
        "unknown USGS feed \"nope\"; expected one of [\"all_hour\", \"all_day\", \"1.0_day\", \
         \"2.5_day\", \"4.5_day\", \"2.5_week\", \"4.5_week\", \"significant_month\"]"
    );
}
