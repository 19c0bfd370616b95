use disky::duration::{parse_seconds, DurationError};

#[test]
fn parses_common_forms() {
    assert_eq!(parse_seconds("30s").unwrap(), 30);
    assert_eq!(parse_seconds("5m").unwrap(), 300);
    assert_eq!(parse_seconds("2h").unwrap(), 7200);
    assert_eq!(parse_seconds("7d").unwrap(), 604800);
    assert_eq!(parse_seconds("1w").unwrap(), 604800);
    assert_eq!(parse_seconds("6mo").unwrap(), 6 * 30 * 86400);
    assert_eq!(parse_seconds("1y").unwrap(), 365 * 86400);
}

#[test]
fn rejects_invalid_input() {
    assert!(parse_seconds("").is_err());
    assert!(parse_seconds("abc").is_err());
    assert!(parse_seconds("30").is_err());
    assert!(parse_seconds("30x").is_err());
    assert!(parse_seconds("30 days").is_err());
}

#[test]
fn handles_whitespace() {
    assert_eq!(parse_seconds("  7d  ").unwrap(), 604800);
}

#[test]
fn duration_errors_name_the_cause() {
    assert!(matches!(parse_seconds("   "), Err(DurationError::Empty)));
    assert!(matches!(parse_seconds("42"), Err(DurationError::MissingUnit)));
    assert!(matches!(parse_seconds("d"), Err(DurationError::InvalidNumber)));
    match parse_seconds("3fortnights") {
        Err(DurationError::UnknownUnit(u)) => assert_eq!(u, "fortnights"),
        other => panic!("unexpected {:?}", other),
    }
}

#[test]
fn duration_zero_and_minutes_vs_months() {
    assert_eq!(parse_seconds("0s").unwrap(), 0);
    assert_eq!(parse_seconds("1m").unwrap(), 60);
    assert_eq!(parse_seconds("1mo").unwrap(), 2_592_000);
}
