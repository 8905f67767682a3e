use std::sync::Arc;

use serafort_sdk::b2b::B2BModule;
use serafort_sdk::base64::decode_base64_url;
use serafort_sdk::json::{parse_json, JsonValue};
use serafort_sdk::m2m::m2m_token_cache;
use serafort_sdk::text::urlencoding;
use serafort_sdk::types::SerafortConfig;
use serafort_sdk::SerafortError;

const GOOD_PAYLOAD: &str = "eyJzdWIiOiJ1MSIsImlzcyI6Imh0dHBzOi8vYXV0aC5hY21lLmNvbS8iLCJleHAiOjIwMDAsInJvbGVzIjpbImFkbWluIl0sInNjb3BlIjoicmVhZCB3cml0ZSJ9";

fn module() -> B2BModule {
    B2BModule::new(Arc::new(SerafortConfig::new("https://auth.acme.com")))
}

fn token(payload: &str) -> String {
    format!("eyJhbGciOiJub25lIn0.{}.sig", payload)
}

#[test]
fn validate_token_end_to_end() {
    let u = module().validate_token(&token(GOOD_PAYLOAD), 2000).unwrap();
    assert_eq!(u.user_id, "u1");
    assert_eq!(u.roles, vec!["admin".to_string()]);
    assert_eq!(u.permissions, vec!["read".to_string(), "write".to_string()]);
}

#[test]
fn validate_token_refuses_expired() {
    match module().validate_token(&token(GOOD_PAYLOAD), 2061) {
        Err(SerafortError::Authentication(m)) => assert_eq!(m, "Token has expired"),
        other => panic!("unexpected {:?}", other),
    }
}

#[test]
fn validate_token_refuses_bad_shape_and_bad_json() {
    match module().validate_token("abc", 0) {
        Err(SerafortError::Authentication(m)) => assert_eq!(m, "Invalid JWT: expected 3 parts"),
        other => panic!("unexpected {:?}", other),
    }
    match module().validate_token(&token("bm90IGpzb24"), 0) {
        Err(SerafortError::Authentication(m)) => {
            assert!(m.starts_with("Failed to parse JWT claims: "), "{}", m)
        },
        other => panic!("unexpected {:?}", other),
    }
}

#[test]
fn try_validate_token_declines_overflowing_expiry() {
    assert!(module().try_validate_token(&token("eyJleHAiOjE4NDQ2NzQ0MDczNzA5NTUxNjE1fQ"), 0).is_none());
    match module().try_validate_token(&token("eyJleHAiOjEwMH0"), 161) {
        Some(Err(SerafortError::Authentication(m))) => assert_eq!(m, "Token has expired"),
        other => panic!("unexpected {:?}", other),
    }
    assert!(matches!(module().try_validate_token(&token("eyJleHAiOjEwMH0"), 160), Some(Ok(_))));
}

#[test]
fn parse_json_reads_documents() {
    match parse_json(b"{\"a\":[1,-2,1.5,\"x\",null,true]}") {
        Ok(JsonValue::Object(members)) => {
            assert_eq!(members.len(), 1);
            assert_eq!(members[0].0, "a");
            match &members[0].1 {
                JsonValue::Array(items) => {
                    assert!(matches!(items[0], JsonValue::PosInt(1)));
                    assert!(matches!(items[1], JsonValue::NegInt(-2)));
                    assert!(matches!(&items[2], JsonValue::Float(t) if t == "1.5"));
                    assert!(matches!(&items[3], JsonValue::Str(t) if t == "x"));
                    assert!(matches!(items[4], JsonValue::Null));
                    assert!(matches!(items[5], JsonValue::Bool(true)));
                },
                other => panic!("unexpected {:?}", other),
            }
        },
        other => panic!("unexpected {:?}", other),
    }
    assert!(parse_json(b"not json").is_err());
}

#[test]
fn m2m_cache_refreshes_five_minutes_early() {
    let mut cache = m2m_token_cache();
    assert_eq!(cache.buffer_nanos(), 300_000_000_000);
    cache.set("k".to_string(), "t".to_string(), 301, None, 0);
    assert_eq!(cache.get("k", 999_999_999), Some("t".to_string()));
    assert_eq!(cache.get("k", 1_000_000_000), None);
}

fn percent_decode(s: &str) -> Vec<u8> {
    let b = s.as_bytes();
    let mut out = Vec::new();
    let mut i = 0;
    while i < b.len() {
        if b[i] == b'%' {
            out.push(u8::from_str_radix(&s[i + 1..i + 3], 16).unwrap());
            i += 3;
        } else {
            out.push(b[i]);
            i += 1;
        }
    }
    out
}

#[test]
fn percent_decoding_inverts_url_encoding() {
    for text in ["", "plain", "a b&c=d?e#f", "Grüße \u{1F600}", "%41"] {
        let encoded = urlencoding(text);
        assert_eq!(percent_decode(&encoded), text.as_bytes());
        let expected_len: usize = text
            .bytes()
            .map(|b| if b.is_ascii_alphanumeric() || b"-_.~".contains(&b) { 1 } else { 3 })
            .sum();
        assert_eq!(encoded.len(), expected_len);
    }
}

#[test]
fn login_url_has_two_query_parameters() {
    let url = module().get_login_url("t&x?", "https://app/cb?q=1#f");
    let (path, query) = url.split_once('?').unwrap();
    assert_eq!(path, "https://auth.acme.com/api/auth/sso/login");
    assert!(!query.contains('?'));
    let params: Vec<&str> = query.split('&').collect();
    assert_eq!(params.len(), 2);
    assert_eq!(percent_decode(params[0].strip_prefix("tenant_id=").unwrap()), b"t&x?");
    assert_eq!(
        percent_decode(params[1].strip_prefix("redirect_uri=").unwrap()),
        b"https://app/cb?q=1#f"
    );
}

fn base64url_encode(bytes: &[u8], pad: bool) -> String {
    const ALPHABET: &[u8] = b"ABCDEFGHIJKLMNOPQRSTUVWXYZabcdefghijklmnopqrstuvwxyz0123456789-_";
    let mut out = String::new();
    for chunk in bytes.chunks(3) {
        let b = [chunk[0], *chunk.get(1).unwrap_or(&0), *chunk.get(2).unwrap_or(&0)];
        let n = ((b[0] as u32) << 16) | ((b[1] as u32) << 8) | b[2] as u32;
        let chars = chunk.len() + 1;
        for i in 0..4 {
            if i < chars {
                out.push(ALPHABET[((n >> (18 - 6 * i)) & 63) as usize] as char);
            } else if pad {
                out.push('=');
            }
        }
    }
    out
}

#[test]
fn base64url_round_trip() {
    let samples: Vec<Vec<u8>> = vec![vec![], vec![0], vec![255, 254], vec![1, 2, 3], (0..=255).collect()];
    for v in samples {
        assert_eq!(decode_base64_url(&base64url_encode(&v, false)).unwrap(), v);
        assert_eq!(decode_base64_url(&base64url_encode(&v, true)).unwrap(), v);
    }
}

#[test]
fn removing_foreign_characters_changes_nothing() {
    assert_eq!(decode_base64_url("TW Fu\n").unwrap(), decode_base64_url("TWFu").unwrap());
    assert_eq!(decode_base64_url("T*W!F\tu").unwrap(), b"Man".to_vec());
}
