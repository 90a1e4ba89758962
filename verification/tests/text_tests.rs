use tti_stats::text::{contains_error_marker, is_json_name, str_lt, timestamp_from_name};

#[test]
fn timestamp_parses() {
    assert_eq!(
        timestamp_from_name("postmark-tti-1700000000-report.json"),
        Some(1_700_000_000)
    );
    assert_eq!(timestamp_from_name("postmark-tti-0-x"), Some(0));
    assert_eq!(timestamp_from_name("postmark-tti-007-x"), Some(7));
}

#[test]
fn timestamp_accepts_leading_plus() {
    // u64 parsing accepts an explicit plus sign.
    assert_eq!(timestamp_from_name("postmark-tti-+42-x"), Some(42));
}

#[test]
fn timestamp_rejects_bad_names() {
    // Wrong prefix.
    assert_eq!(timestamp_from_name("other-tti-123-x.json"), None);
    // No dash after the timestamp.
    assert_eq!(timestamp_from_name("postmark-tti-123"), None);
    // Not a number.
    assert_eq!(timestamp_from_name("postmark-tti-abc-x.json"), None);
    // Empty timestamp.
    assert_eq!(timestamp_from_name("postmark-tti--x.json"), None);
    // Too large for 64 bits.
    assert_eq!(
        timestamp_from_name("postmark-tti-99999999999999999999-x"),
        None
    );
    // Largest value that still fits.
    assert_eq!(
        timestamp_from_name("postmark-tti-18446744073709551615-x"),
        Some(u64::MAX)
    );
    assert_eq!(
        timestamp_from_name("postmark-tti-18446744073709551616-x"),
        None
    );
}

#[test]
fn json_extension() {
    assert!(is_json_name("a.json"));
    assert!(is_json_name("postmark-tti-1-report.json"));
    assert!(is_json_name("b.tar.json"));
    assert!(!is_json_name("a.JSON"));
    assert!(!is_json_name(".json"));
    assert!(!is_json_name("json"));
    assert!(!is_json_name("ajson"));
    assert!(!is_json_name("a.json.gz"));
}

#[test]
fn error_marker() {
    assert!(contains_error_marker("<html>Internal Server Error</html>"));
    assert!(contains_error_marker("Internal Server Error"));
    assert!(!contains_error_marker("internal server error"));
    assert!(!contains_error_marker(""));
    assert!(!contains_error_marker("Internal Server"));
}

#[test]
fn lexicographic_order() {
    assert!(str_lt("alpha", "beta"));
    assert!(str_lt("a", "ab"));
    assert!(!str_lt("ab", "a"));
    assert!(!str_lt("same", "same"));
    assert!(str_lt("", "a"));
    assert!(str_lt("Z", "a"));
}
