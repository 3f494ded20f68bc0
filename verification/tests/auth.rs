use enargeia::auth::{
    any_tokens, authenticate, authenticate_at, charge_ask, charge_ask_at, create_token,
    create_token_as, generate_plaintext, hash_token, list_tokens, revoke_token, revoke_token_at,
    Principal, Role, TokenStore,
};
use enargeia::world::Stamp;

#[test]
fn roles_and_hashing() {
    assert!(Role::parse("client").unwrap() == Role::Client);
    assert!(Role::parse("root").is_err());
    assert!(!Role::Client.can_decide());
    assert!(Role::Analyst.can_decide() && !Role::Analyst.can_decorrelate());
    assert!(Role::Operator.can_decorrelate());
    let p = generate_plaintext();
    assert!(p.starts_with("enk_") && p.len() == 36);
    assert_eq!(hash_token(&p).len(), 64);
    assert_ne!(hash_token(&p), hash_token("enk_other"));
}

const DAY_ONE: &str = "2026-09-08T10:00:00+00:00";
const DAY_TWO: &str = "2026-09-09T10:00:00+00:00";

fn stamp_at(id: &str, now: &str) -> Stamp {
    Stamp { id: id.to_string(), now: now.to_string(), expiry: now.to_string() }
}

fn store_with_client() -> TokenStore {
    let mut store = TokenStore::new();
    create_token_as(
        &mut store,
        "acme",
        Role::Client,
        Some(2),
        Some("commercial_clean"),
        "enk_secret",
        &stamp_at("t1", DAY_ONE),
    );
    store
}

#[test]
fn token_hash_is_sha256_in_hex() {
    assert_eq!(
        hash_token("abc"),
        "ba7816bf8f01cfea414140de5dae2223b00361a396177a9cb410ff61f20015ad"
    );
}

#[test]
fn role_names_read_back() {
    for role in [Role::Operator, Role::Analyst, Role::Client] {
        assert!(Role::parse(role.as_str()).unwrap() == role);
        assert!(!role.can_decorrelate() || role.can_decide());
    }
    let err = Role::parse("ro\"ot").unwrap_err();
    assert_eq!(
        err.message(),
        "unknown role \"ro\\\"ot\"; expected operator | analyst | client"
    );
}

#[test]
fn api_is_open_only_when_nothing_is_configured() {
    let mut empty = TokenStore::new();
    let who = authenticate_at(&mut empty, None, None, DAY_ONE).unwrap().unwrap();
    assert_eq!(who.name, "anonymous (no token configured)");
    assert!(who.role == Role::Operator);
    assert!(authenticate_at(&mut empty, Some("root"), None, DAY_ONE).unwrap().is_none());
    assert!(authenticate_at(&mut empty, Some("root"), Some(""), DAY_ONE).unwrap().is_none());

    let mut store = store_with_client();
    assert!(any_tokens(&store));
    assert!(authenticate_at(&mut store, None, None, DAY_ONE).unwrap().is_none());
}

#[test]
fn root_and_stored_tokens_authenticate() {
    let mut store = store_with_client();
    let root = authenticate_at(&mut store, Some("root"), Some("root"), DAY_ONE).unwrap().unwrap();
    assert_eq!(root.name, "root");
    assert_eq!(root.token_id, None);

    let who = authenticate_at(&mut store, Some("root"), Some("enk_secret"), DAY_TWO)
        .unwrap()
        .unwrap();
    assert_eq!(who.token_id.as_deref(), Some("t1"));
    assert!(who.role == Role::Client);
    assert_eq!(who.license_filter.as_deref(), Some("commercial_clean"));
    assert_eq!(store.tokens[0].row.last_used_at.as_deref(), Some(DAY_TWO));
    assert!(authenticate_at(&mut store, Some("root"), Some("enk_wrong"), DAY_ONE)
        .unwrap()
        .is_none());
}

#[test]
fn stored_role_that_is_unknown_is_an_error() {
    let mut store = store_with_client();
    store.tokens[0].row.role = "janitor".to_string();
    let err = authenticate_at(&mut store, None, Some("enk_secret"), DAY_ONE).unwrap_err();
    assert!(err.message().contains("janitor"));
}

#[test]
fn revoked_token_is_refused() {
    let mut store = store_with_client();
    assert_eq!(revoke_token_at(&mut store, "acme", DAY_TWO), 1);
    assert_eq!(revoke_token_at(&mut store, "acme", DAY_TWO), 0);
    assert_eq!(list_tokens(&store)[0].revoked_at.as_deref(), Some(DAY_TWO));
    assert!(authenticate_at(&mut store, Some("root"), Some("enk_secret"), DAY_TWO)
        .unwrap()
        .is_none());
    assert!(!any_tokens(&store));
}

#[test]
fn quota_is_counted_per_day() {
    let mut store = store_with_client();
    let who = authenticate_at(&mut store, None, Some("enk_secret"), DAY_ONE).unwrap().unwrap();
    assert_eq!(charge_ask_at(&mut store, &who, DAY_ONE).unwrap(), Some(1));
    assert_eq!(charge_ask_at(&mut store, &who, DAY_ONE).unwrap(), Some(0));
    let err = charge_ask_at(&mut store, &who, DAY_ONE).unwrap_err();
    assert_eq!(err.message(), "daily ask quota of 2 exhausted for acme; resets at 00:00 UTC");
    assert_eq!(charge_ask_at(&mut store, &who, DAY_TWO).unwrap(), Some(1));
    assert_eq!(charge_ask_at(&mut store, &Principal::root(), DAY_ONE).unwrap(), None);
}

#[test]
fn tokens_are_listed_by_creation() {
    let mut store = store_with_client();
    create_token_as(
        &mut store,
        "early",
        Role::Analyst,
        None,
        None,
        "enk_other",
        &stamp_at("t2", "2025-01-01T00:00:00+00:00"),
    );
    let names: Vec<String> = list_tokens(&store).into_iter().map(|t| t.name).collect();
    assert_eq!(names, vec!["early", "acme"]);
}

#[test]
fn fresh_token_authenticates_by_its_plaintext() {
    let mut store = TokenStore::new();
    let (id, plain) = create_token(&mut store, "me", Role::Operator, None, None);
    assert_eq!(id.len(), 36);
    assert_ne!(store.tokens[0].token_hash, plain);
    let who = authenticate(&mut store, None, Some(&plain)).unwrap().unwrap();
    assert_eq!(who.token_id.as_deref(), Some(id.as_str()));
    assert_eq!(charge_ask(&mut store, &who).unwrap(), None);
    assert_eq!(revoke_token(&mut store, &id), 1);
    assert!(authenticate(&mut store, None, Some(&plain)).unwrap().is_none());
}
