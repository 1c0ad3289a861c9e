use fulmicoton::parse::{
    decimal_string, parse_decimal, EventKey, EventValue, ParseBijection, Repo,
};

fn raw_event(id: &str, name: &str, created_at: &str) -> (EventKey, EventValue) {
    (
        EventKey { id: id.to_string(), event_type: "PushEvent".to_string() },
        EventValue {
            repo: Repo {
                id: 42,
                name: name.to_string(),
                url: format!("https://api.github.com/repos/{}", name),
            },
            created_at: created_at.to_string(),
        },
    )
}

#[test]
fn decimal_parsing() {
    assert_eq!(parse_decimal(b"0"), Some(0));
    assert_eq!(parse_decimal(b"2489651045"), Some(2_489_651_045));
    assert_eq!(parse_decimal(b"+17"), Some(17));
    assert_eq!(parse_decimal(b"-17"), Some(-17));
    assert_eq!(parse_decimal(b"0009"), Some(9));
    assert_eq!(parse_decimal(b"9223372036854775807"), Some(i64::MAX));
    assert_eq!(parse_decimal(b"-9223372036854775808"), Some(i64::MIN));
    assert_eq!(parse_decimal(b"9223372036854775808"), None);
    assert_eq!(parse_decimal(b"-9223372036854775809"), None);
    assert_eq!(parse_decimal(b"123456789012345678901234567890"), None);
    assert_eq!(parse_decimal(b""), None);
    assert_eq!(parse_decimal(b"-"), None);
    assert_eq!(parse_decimal(b"12a"), None);
    assert_eq!(parse_decimal(b" 1"), None);
}

#[test]
fn decimal_formatting() {
    assert_eq!(decimal_string(0), "0");
    assert_eq!(decimal_string(7), "7");
    assert_eq!(decimal_string(-120), "-120");
    assert_eq!(decimal_string(i64::MAX), "9223372036854775807");
    assert_eq!(decimal_string(i64::MIN), "-9223372036854775808");
    for x in [0i64, 1, -1, 99, 100, -1000, 2_489_651_045, i64::MAX, i64::MIN] {
        assert_eq!(parse_decimal(decimal_string(x).as_bytes()), Some(x));
        assert_eq!(decimal_string(x), x.to_string());
    }
}

#[test]
fn parse_event_fields() {
    let parser = ParseBijection;
    let e = parser.apply(&raw_event("2489651045", "rust-lang/rust", "2015-01-01T15:00:00Z"));
    assert_eq!(e.id, 2_489_651_045);
    assert_eq!(e.event_type, "PushEvent");
    assert_eq!(e.repo_id, 42);
    assert_eq!(e.repo_owner, "rust-lang");
    assert_eq!(e.repo_suffix, "rust");
    assert_eq!(e.created_at, 1_420_124_400);
}

#[test]
fn parse_event_names_and_offsets() {
    let parser = ParseBijection;
    let plain = parser.apply(&raw_event("1", "solo", "1970-01-01T00:00:10+00:00"));
    assert_eq!(plain.repo_owner, "solo");
    assert_eq!(plain.repo_suffix, "");
    assert_eq!(plain.created_at, 10);
    let nested = parser.apply(&raw_event("2", "a/b/c", "1970-01-01T01:00:00+01:00"));
    assert_eq!(nested.repo_owner, "a");
    assert_eq!(nested.repo_suffix, "b/c");
    assert_eq!(nested.created_at, 0);
}

#[test]
fn parse_event_rejects() {
    let parser = ParseBijection;
    assert!(parser.try_apply(&raw_event("x1", "a/b", "2015-01-01T15:00:00Z")).is_none());
    assert!(parser.try_apply(&raw_event("1", "a/b", "yesterday")).is_none());
    assert!(parser.try_apply(&raw_event("1", "a/b", "2015-01-01T15:00:00Z")).is_some());
}

#[test]
fn write_event_back() {
    let parser = ParseBijection;
    let source = raw_event("2489651045", "rust-lang/rust", "2015-01-01T15:00:00Z");
    let e = parser.apply(&source);
    let (key, value) = parser.revert(&e);
    assert_eq!(key, source.0);
    assert_eq!(value, source.1);
    let solo = parser.apply(&raw_event("3", "solo", "2015-01-01T15:00:00Z"));
    let (_, v) = parser.revert(&solo);
    assert_eq!(v.repo.name, "solo");
    assert_eq!(v.repo.url, "https://api.github.com/repos/solo");
}

#[test]
fn write_event_out_of_range() {
    let parser = ParseBijection;
    let mut e = parser.apply(&raw_event("3", "solo", "2015-01-01T15:00:00Z"));
    e.created_at = i64::MAX;
    assert!(parser.try_revert(&e).is_none());
}
