use enargeia::json::Json;
use enargeia::llm::{extract_json_object, read_answer, LlmSettings, Provider};

#[test]
fn extracts_object_with_trailing_junk() {
    let s = r#"{"entities":[{"a":"b}"}]};"#;
    assert_eq!(extract_json_object(s), Some(r#"{"entities":[{"a":"b}"}]}"#));
}

#[test]
fn extracts_object_inside_prose() {
    let s = "Sure! Here you go: {\"x\": 1} hope that helps";
    assert_eq!(extract_json_object(s), Some("{\"x\": 1}"));
}

#[test]
fn none_without_object() {
    assert_eq!(extract_json_object("no json here"), None);
}

const HOSTED: &str = "hosted-model";

#[test]
fn object_may_nest_and_quote_braces() {
    assert_eq!(extract_json_object(r#"é {"a":{"b":"\"}"}} }"#), Some(r#"{"a":{"b":"\"}"}}"#));
    assert_eq!(extract_json_object("{ unclosed"), None);
    assert_eq!(extract_json_object(""), None);
}

#[test]
fn provider_follows_the_settings() {
    let s = LlmSettings::from_settings(None, None, None, None, None, HOSTED).unwrap();
    assert!(s.provider == Provider::OpenAiCompat);
    assert_eq!(s.base_url, "http://localhost:11434");
    assert_eq!(s.model, "qwen2.5:7b");
    assert_eq!(s.api_key, None);
    assert_eq!(s.describe(), "openai-compatible @ http://localhost:11434 · qwen2.5:7b");

    let s = LlmSettings::from_settings(None, None, Some("k"), None, None, HOSTED).unwrap();
    assert!(s.provider == Provider::Anthropic);
    assert_eq!(s.api_key.as_deref(), Some("k"));
    assert_eq!(s.describe(), "anthropic · hosted-model");

    let s = LlmSettings::from_settings(
        None,
        Some("http://host//"),
        Some("k"),
        Some("o"),
        Some("m"),
        HOSTED,
    )
    .unwrap();
    assert!(s.provider == Provider::OpenAiCompat);
    assert_eq!(s.base_url, "http://host");
    assert_eq!(s.api_key.as_deref(), Some("o"));
    assert_eq!(s.model, "m");
}

#[test]
fn settings_errors() {
    let err = LlmSettings::from_settings(Some("other"), None, None, None, None, HOSTED)
        .err()
        .unwrap();
    assert_eq!(
        err.message(),
        "unknown ENARGEIA_LLM_PROVIDER \"other\" (expected openai|anthropic)"
    );
    let err = LlmSettings::from_settings(Some("anthropic"), None, None, Some("o"), None, HOSTED)
        .err()
        .unwrap();
    assert_eq!(err.message(), "ANTHROPIC_API_KEY not set");
}

fn object(fields: Vec<(&str, Json)>) -> Json {
    Json::Object(fields.into_iter().map(|(k, v)| (k.to_string(), v)).collect())
}

#[test]
fn replies_are_read_by_provider() {
    let text = || Json::Text("hi".to_string());
    let hosted = object(vec![("content", Json::List(vec![object(vec![("text", text())])]))]);
    let local = object(vec![(
        "choices",
        Json::List(vec![object(vec![("message", object(vec![("content", text())]))])]),
    )]);
    assert_eq!(read_answer(Provider::Anthropic, &hosted).unwrap(), "hi");
    assert_eq!(read_answer(Provider::OpenAiCompat, &local).unwrap(), "hi");
    let err = read_answer(Provider::Anthropic, &local).unwrap_err();
    assert_eq!(err.message(), "anthropic response missing content[0].text");
    let err = read_answer(Provider::OpenAiCompat, &Json::Null).unwrap_err();
    assert_eq!(err.message(), "response missing choices[0].message.content");
}

#[test]
fn stray_braces_are_passed_over() {
    assert_eq!(extract_json_object(r#"Note { here: {"x": 1}"#), Some(r#"{"x": 1}"#));
    assert_eq!(extract_json_object("{ { {a}"), Some("{a}"));
    assert_eq!(extract_json_object("{a} {b}"), Some("{a}"));
    assert_eq!(extract_json_object("{ { {"), None);
}
