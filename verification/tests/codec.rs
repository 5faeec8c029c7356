use linkshrink::codec::{decode_shortlink, encode_shortlink};
use linkshrink::errors::DatabaseError;
use linkshrink::keyspace::{namespace_key, strip_namespace};
use linkshrink::models::Shortlink;

fn record(keyword: &str, url: &str, hits: usize) -> Shortlink {
    Shortlink {
        keyword: keyword.to_string(),
        url: url.to_string(),
        owner: "admin".to_string(),
        hits,
        private: false,
        description: "a link".to_string(),
    }
}

#[test]
fn encode_exact_text() {
    let s = record("home", "https://example.com/", 42);
    assert_eq!(
        encode_shortlink(&s),
        "{\"keyword\":\"home\",\"url\":\"https://example.com/\",\"owner\":\"admin\",\
         \"hits\":42,\"private\":false,\"description\":\"a link\"}"
    );
}

#[test]
fn encode_escapes_quotes_and_backslashes() {
    let mut s = record("q", "", 0);
    s.owner = "a\"b\\c".to_string();
    s.description = String::new();
    let text = encode_shortlink(&s);
    assert_eq!(
        text,
        "{\"keyword\":\"q\",\"url\":\"\",\"owner\":\"a\\\"b\\\\c\",\
         \"hits\":0,\"private\":false,\"description\":\"\"}"
    );
    let back = decode_shortlink(&text).unwrap();
    assert_eq!(back, s);
}

#[test]
fn round_trip_plain() {
    let s = record("wiki", "https://wiki.example.com", 7);
    let back = decode_shortlink(&encode_shortlink(&s)).unwrap();
    assert_eq!(back, s);
}

#[test]
fn round_trip_empty_fields() {
    let s = Shortlink {
        keyword: String::new(),
        url: String::new(),
        owner: String::new(),
        hits: 0,
        private: false,
        description: String::new(),
    };
    let back = decode_shortlink(&encode_shortlink(&s)).unwrap();
    assert_eq!(back, s);
}

#[test]
fn round_trip_private_and_max_hits() {
    let mut s = record("big", "https://example.com", usize::MAX);
    s.private = true;
    let back = decode_shortlink(&encode_shortlink(&s)).unwrap();
    assert_eq!(back, s);
}

#[test]
fn round_trip_unicode_text() {
    let s = record("caf\u{e9}", "https://example.com/\u{1f680}", 3);
    let back = decode_shortlink(&encode_shortlink(&s)).unwrap();
    assert_eq!(back, s);
}

#[test]
fn decode_rejects_garbage() {
    assert_eq!(
        decode_shortlink("not a record").unwrap_err(),
        DatabaseError::DecodeFailure
    );
    assert_eq!(decode_shortlink("").unwrap_err(), DatabaseError::DecodeFailure);
}

#[test]
fn decode_rejects_unterminated_text() {
    assert_eq!(
        decode_shortlink("{\"keyword\":\"home").unwrap_err(),
        DatabaseError::DecodeFailure
    );
    assert_eq!(
        decode_shortlink("{\"keyword\":\"home\\").unwrap_err(),
        DatabaseError::DecodeFailure
    );
}

#[test]
fn decode_rejects_bad_escape() {
    assert_eq!(
        decode_shortlink(
            "{\"keyword\":\"a\\nb\",\"url\":\"\",\"owner\":\"\",\
             \"hits\":0,\"private\":false,\"description\":\"\"}"
        )
        .unwrap_err(),
        DatabaseError::DecodeFailure
    );
}

#[test]
fn decode_rejects_leading_zero_and_overflow() {
    let with_hits = |h: &str| {
        format!(
            "{{\"keyword\":\"k\",\"url\":\"\",\"owner\":\"\",\
             \"hits\":{h},\"private\":false,\"description\":\"\"}}"
        )
    };
    assert!(decode_shortlink(&with_hits("0")).is_ok());
    assert_eq!(
        decode_shortlink(&with_hits("007")).unwrap_err(),
        DatabaseError::DecodeFailure
    );
    assert_eq!(
        decode_shortlink(&with_hits("")).unwrap_err(),
        DatabaseError::DecodeFailure
    );
    // one digit past the largest counter the record can hold
    let too_big = format!("{}0", usize::MAX);
    assert_eq!(
        decode_shortlink(&with_hits(&too_big)).unwrap_err(),
        DatabaseError::DecodeFailure
    );
    let max = format!("{}", usize::MAX);
    assert_eq!(decode_shortlink(&with_hits(&max)).unwrap().hits, usize::MAX);
}

#[test]
fn decode_rejects_trailing_garbage() {
    let s = record("k", "", 1);
    let mut text = encode_shortlink(&s);
    text.push(' ');
    assert_eq!(decode_shortlink(&text).unwrap_err(), DatabaseError::DecodeFailure);
}

#[test]
fn decode_rejects_misspelled_bool() {
    assert_eq!(
        decode_shortlink(
            "{\"keyword\":\"k\",\"url\":\"\",\"owner\":\"\",\
             \"hits\":1,\"private\":maybe,\"description\":\"\"}"
        )
        .unwrap_err(),
        DatabaseError::DecodeFailure
    );
}

#[test]
fn namespace_key_prefixes() {
    assert_eq!(namespace_key("home"), "sl::home");
    assert_eq!(namespace_key(""), "sl::");
}

#[test]
fn strip_namespace_inverts() {
    assert_eq!(strip_namespace("sl::home").unwrap(), "home");
    assert_eq!(strip_namespace(&namespace_key("caf\u{e9}")).unwrap(), "caf\u{e9}");
    assert!(strip_namespace("home").is_none());
    assert!(strip_namespace("sl:").is_none());
    assert!(strip_namespace("SL::home").is_none());
}
