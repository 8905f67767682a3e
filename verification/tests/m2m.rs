use std::time::Duration;

use serafort_sdk::cache::TokenCache;
use serafort_sdk::m2m::{cached_token, token_request, FetchStep, StatusClass, TokenFetch, TokenRequest};
use serafort_sdk::types::{OAuthResponse, RetryConfig, SerafortConfig};
use serafort_sdk::SerafortError;

const SECOND: u128 = 1_000_000_000;

#[test]
fn test_cache_expiration_and_buffer() {
    let mut cache = TokenCache::new(Duration::from_secs(300).as_nanos()); // 5 min buffer
    let now = 1_000 * SECOND;

    // Token valid for 10 minutes -> Hit
    cache.set("key_1".to_string(), "tok_valid".to_string(), 600, None, now);
    assert_eq!(cache.get("key_1", now), Some("tok_valid".to_string()));

    // Token valid for 2 minutes (< 5 min buffer) -> Proactively invalid / Miss
    cache.set("key_2".to_string(), "tok_expiring".to_string(), 120, None, now);
    assert_eq!(cache.get("key_2", now), None);
}

#[test]
fn cache_read_after_write_until_buffer() {
    let mut cache = TokenCache::new(300 * SECOND);
    cache.set("k".to_string(), "t".to_string(), 600, Some("s".to_string()), 0);
    // Valid while now + 300 s < 600 s.
    assert_eq!(cache.get("k", 299 * SECOND), Some("t".to_string()));
    assert_eq!(cache.get("k", 300 * SECOND - 1), Some("t".to_string()));
    assert_eq!(cache.get("k", 300 * SECOND), None);
    assert_eq!(cache.get("other", 0), None);
}

#[test]
fn cache_overwrites_and_keeps_other_keys() {
    let mut cache = TokenCache::new(0);
    cache.set("a".to_string(), "1".to_string(), 10, None, 0);
    cache.set("b".to_string(), "2".to_string(), 10, None, 0);
    cache.set("a".to_string(), "3".to_string(), 10, None, 0);
    assert_eq!(cache.get("a", 0), Some("3".to_string()));
    assert_eq!(cache.get("b", 0), Some("2".to_string()));
}

#[test]
fn cache_invalidation() {
    let mut cache = TokenCache::new(0);
    cache.set("a".to_string(), "1".to_string(), 10, None, 0);
    cache.set("b".to_string(), "2".to_string(), 10, None, 0);
    cache.invalidate(Some("a"));
    assert_eq!(cache.get("a", 0), None);
    assert_eq!(cache.get("b", 0), Some("2".to_string()));
    cache.invalidate(Some("missing"));
    assert_eq!(cache.get("b", 0), Some("2".to_string()));
    cache.invalidate(None);
    assert_eq!(cache.get("b", 0), None);
}

fn config_with_credentials() -> SerafortConfig {
    SerafortConfig::new("https://auth.acme.com/").with_client_credentials("cid", "secret")
}

#[test]
fn request_key_sorts_scopes() {
    let config = config_with_credentials();
    let a = token_request(&config, Some(vec!["write:users".to_string(), "read:users".to_string()]));
    let b = token_request(&config, Some(vec!["read:users".to_string(), "write:users".to_string()]));
    assert_eq!(a.cache_key, "cid:read:users write:users");
    assert_eq!(a.cache_key, b.cache_key);
    assert_eq!(a.scope, Some("read:users write:users".to_string()));
    assert_eq!(b.scope, a.scope);
}

#[test]
fn request_without_scopes_or_client_id() {
    let config = SerafortConfig::new("https://auth.acme.com");
    let none = token_request(&config, None);
    let empty = token_request(&config, Some(vec![]));
    assert_eq!(none.cache_key, "default:");
    assert_eq!(none.scope, None);
    assert_eq!(empty.cache_key, none.cache_key);
    assert_eq!(empty.scope, None);
}

#[test]
fn scopes_sort_in_string_order() {
    let config = config_with_credentials();
    let r = token_request(
        &config,
        Some(vec!["b".to_string(), "B".to_string(), "ab".to_string(), "a".to_string(), "é".to_string()]),
    );
    assert_eq!(r.scope, Some("B a ab b é".to_string()));
}

#[test]
fn cached_token_unless_forced() {
    let mut cache = TokenCache::new(0);
    let request = TokenRequest { cache_key: "k".to_string(), scope: None };
    cache.set("k".to_string(), "tok".to_string(), 10, None, 0);
    assert_eq!(cached_token(&cache, &request, false, 0), Some("tok".to_string()));
    assert_eq!(cached_token(&cache, &request, true, 0), None);
}

#[test]
fn fetch_needs_credentials() {
    let request = TokenRequest { cache_key: "k".to_string(), scope: None };
    let missing_id = SerafortConfig::new("https://a");
    match TokenFetch::start(&missing_id, &request) {
        Err(SerafortError::Authentication(m)) => {
            assert_eq!(m, "client_id is required for M2M authentication")
        },
        _ => panic!("expected an error"),
    }
    let mut missing_secret = SerafortConfig::new("https://a");
    missing_secret.client_id = Some("cid".to_string());
    match TokenFetch::start(&missing_secret, &request) {
        Err(SerafortError::Authentication(m)) => {
            assert_eq!(m, "client_secret is required for M2M authentication")
        },
        _ => panic!("expected an error"),
    }
}

#[test]
fn fetch_url_and_form() {
    let config = config_with_credentials();
    let request = TokenRequest { cache_key: "k".to_string(), scope: Some("a b".to_string()) };
    let fetch = TokenFetch::start(&config, &request).ok().unwrap();
    assert_eq!(fetch.token_url(), "https://auth.acme.com/oauth/token");
    let form: Vec<(&str, &str)> = fetch.params().iter().map(|(k, v)| (k.as_str(), v.as_str())).collect();
    assert_eq!(
        form,
        vec![
            ("grant_type", "client_credentials"),
            ("client_id", "cid"),
            ("client_secret", "secret"),
            ("scope", "a b"),
        ]
    );
}

#[test]
fn fetch_retries_then_gives_up_with_last_error() {
    let mut config = config_with_credentials();
    config.retry = RetryConfig { max_retries: 2, initial_delay_ms: 1, max_delay_ms: 1 };
    let request = TokenRequest { cache_key: "k".to_string(), scope: None };
    let mut fetch = TokenFetch::start(&config, &request).ok().unwrap();
    for expected in 0..3u32 {
        match fetch.next_step() {
            FetchStep::Send { attempt } => assert_eq!(attempt, expected),
            other => panic!("unexpected {:?}", other),
        }
        assert_eq!(fetch.classify(if expected == 0 { 429 } else { 503 }), StatusClass::Retry);
    }
    match fetch.next_step() {
        FetchStep::GiveUp(SerafortError::RateLimit(None)) => {},
        other => panic!("unexpected {:?}", other),
    }
}

#[test]
fn fetch_without_attempts_gives_up_internally() {
    let config = config_with_credentials();
    let request = TokenRequest { cache_key: "k".to_string(), scope: None };
    let mut fetch = TokenFetch::start(&config, &request).ok().unwrap();
    // Four sends (one attempt and three retries) without any reported outcome.
    for _ in 0..4 {
        assert!(matches!(fetch.next_step(), FetchStep::Send { .. }));
    }
    match fetch.next_step() {
        FetchStep::GiveUp(SerafortError::Internal(m)) => assert_eq!(m, "Max retries exceeded"),
        other => panic!("unexpected {:?}", other),
    }
}

#[test]
fn fetch_classifies_status_codes() {
    let config = config_with_credentials();
    let request = TokenRequest { cache_key: "k".to_string(), scope: None };
    let mut fetch = TokenFetch::start(&config, &request).ok().unwrap();
    assert_eq!(fetch.classify(200), StatusClass::Accept);
    assert_eq!(fetch.classify(204), StatusClass::Accept);
    assert_eq!(fetch.classify(404), StatusClass::Reject);
    assert_eq!(fetch.classify(302), StatusClass::Reject);
    assert_eq!(fetch.classify(429), StatusClass::Retry);
    assert_eq!(fetch.classify(500), StatusClass::Retry);
    assert_eq!(fetch.classify(599), StatusClass::Retry);
    assert_eq!(fetch.classify(600), StatusClass::Reject);
}

#[test]
fn fetch_rejection_message_names_status() {
    let config = config_with_credentials();
    let request = TokenRequest { cache_key: "k".to_string(), scope: None };
    let fetch = TokenFetch::start(&config, &request).ok().unwrap();
    match fetch.rejection(401, "bad client") {
        SerafortError::Authentication(m) => {
            assert_eq!(m, "Token request failed with status 401 Unauthorized: bad client")
        },
        other => panic!("unexpected {:?}", other),
    }
    match fetch.rejection(499, "") {
        SerafortError::Authentication(m) => {
            assert_eq!(m, "Token request failed with status 499 <unknown status code>: ")
        },
        other => panic!("unexpected {:?}", other),
    }
}

#[test]
fn fetch_accept_caches_token() {
    let config = config_with_credentials();
    let request = TokenRequest { cache_key: "cid:".to_string(), scope: None };
    let fetch = TokenFetch::start(&config, &request).ok().unwrap();
    let mut cache = TokenCache::new(300 * SECOND);
    let response = OAuthResponse { access_token: "tok".to_string(), expires_in: None, scope: None };
    assert_eq!(fetch.accept(&mut cache, Ok(response), 0).ok(), Some("tok".to_string()));
    // Without an expiry the token lasts an hour.
    assert_eq!(cache.get("cid:", 3299 * SECOND), Some("tok".to_string()));
    assert_eq!(cache.get("cid:", 3300 * SECOND), None);
}

#[test]
fn fetch_accept_reports_unreadable_body() {
    let config = config_with_credentials();
    let request = TokenRequest { cache_key: "k".to_string(), scope: None };
    let fetch = TokenFetch::start(&config, &request).ok().unwrap();
    let mut cache = TokenCache::new(0);
    match fetch.accept(&mut cache, Err("missing field".to_string()), 0) {
        Err(SerafortError::Internal(m)) => assert_eq!(m, "Failed to parse token response: missing field"),
        other => panic!("unexpected {:?}", other),
    }
    assert_eq!(cache.get("k", 0), None);
}

#[test]
fn default_configuration() {
    let config = SerafortConfig::new("https://a");
    assert_eq!(config.endpoint, "https://a");
    assert_eq!(config.timeout_seconds, 10);
    assert_eq!(config.retry.max_retries, 3);
    assert_eq!(config.retry.initial_delay_ms, 500);
    assert_eq!(config.retry.max_delay_ms, 5000);
    assert!(config.client_id.is_none());
    let with = config.with_client_credentials("id", "secret");
    assert_eq!(with.client_id.as_deref(), Some("id"));
    assert_eq!(with.client_secret.as_deref(), Some("secret"));
    assert_eq!(with.endpoint, "https://a");
}
