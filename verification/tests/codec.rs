use serafort_sdk::base64::{base64_decode_internal, decode_base64_url};
use serafort_sdk::json::JsonValue;
use serafort_sdk::text::{split_on_char, split_whitespace, str_eq, trim_end_slashes, urlencoding};

#[test]
fn base64_decodes_standard_text() {
    assert_eq!(base64_decode_internal("aGVsbG8=").unwrap(), b"hello".to_vec());
    assert_eq!(base64_decode_internal("aGVsbA==").unwrap(), b"hell".to_vec());
    assert_eq!(base64_decode_internal("aGVs").unwrap(), b"hel".to_vec());
    assert_eq!(base64_decode_internal("").unwrap(), Vec::<u8>::new());
}

#[test]
fn base64_drops_trailing_bits() {
    // Seven characters hold 42 bits: five whole bytes.
    assert_eq!(base64_decode_internal("aGVsbG8").unwrap(), b"hello".to_vec());
    // A single character is not a whole byte.
    assert_eq!(base64_decode_internal("a").unwrap(), Vec::<u8>::new());
}

#[test]
fn base64_skips_foreign_characters_and_stops_at_padding() {
    assert_eq!(base64_decode_internal("aG Vs\nbG8").unwrap(), b"hello".to_vec());
    assert_eq!(base64_decode_internal("aGV€sbG8").unwrap(), b"hello".to_vec());
    assert_eq!(base64_decode_internal("aGVs=bG8").unwrap(), b"hel".to_vec());
}

#[test]
fn base64url_reads_dash_and_underscore() {
    assert_eq!(decode_base64_url("-_8").unwrap(), vec![251u8, 255]);
    assert_eq!(decode_base64_url("+/8").unwrap(), vec![251u8, 255]);
    assert_eq!(decode_base64_url("aGVsbG8").unwrap(), b"hello".to_vec());
}

#[test]
fn url_encoding_of_bytes() {
    assert_eq!(urlencoding("AZaz09-_.~"), "AZaz09-_.~");
    assert_eq!(urlencoding("a b&c=d/e"), "a%20b%26c%3Dd%2Fe");
    assert_eq!(urlencoding("ü"), "%C3%BC");
    assert_eq!(urlencoding(""), "");
}

#[test]
fn url_encoding_is_url_safe() {
    let out = urlencoding("Grüße, Welt! \u{1F600} ~/?#");
    assert!(out.chars().all(|c| c.is_ascii_alphanumeric() || "-_.~%".contains(c)));
}

#[test]
fn trims_trailing_slashes_only() {
    assert_eq!(trim_end_slashes("https://a.b///"), "https://a.b");
    assert_eq!(trim_end_slashes("/"), "");
    assert_eq!(trim_end_slashes("/a/b"), "/a/b");
}

#[test]
fn splits_on_dots_like_str_split() {
    assert_eq!(split_on_char("a.b.c", '.'), vec!["a", "b", "c"]);
    assert_eq!(split_on_char("", '.'), vec![""]);
    assert_eq!(split_on_char(".", '.'), vec!["", ""]);
}

#[test]
fn splits_on_unicode_white_space() {
    assert_eq!(split_whitespace(" a\u{3000}b\t\nc  "), vec!["a", "b", "c"]);
    assert_eq!(split_whitespace("   "), Vec::<String>::new());
    assert_eq!(split_whitespace("one"), vec!["one"]);
}

#[test]
fn string_equality() {
    assert!(str_eq("abc", "abc"));
    assert!(!str_eq("abc", "abd"));
    assert!(!str_eq("ab", "abc"));
}

#[test]
fn json_members_are_found_by_key() {
    let v = JsonValue::Object(vec![
        ("a".to_string(), JsonValue::PosInt(1)),
        ("b".to_string(), JsonValue::Str("x".to_string())),
    ]);
    assert_eq!(v.get("a").and_then(|x| x.as_u64()), Some(1));
    assert_eq!(v.get("b").and_then(|x| x.as_str()), Some("x"));
    assert!(v.get("c").is_none());
    assert!(JsonValue::Null.get("a").is_none());
    assert!(JsonValue::NegInt(-1).as_u64().is_none());
}
