use disky::envelope::{envelope_from_parts, parse_text, parse_value, require_kind, EnvelopeError};

fn make(kind: &str, records: &str) -> String {
    format!(r#"{{"schema_version":1,"kind":"{}","records":{}}}"#, kind, records)
}

#[test]
fn parses_minimal_envelope() {
    let env = parse_text(&make("top", "[]")).unwrap();
    assert_eq!(env.schema_version, 1);
    assert_eq!(env.kind, "top");
    assert!(env.records.is_empty());
}

#[test]
fn carries_records_through() {
    let env = parse_text(&make("top", r#"[{"path":"/a","size":1024}]"#)).unwrap();
    assert_eq!(env.records.len(), 1);
    assert_eq!(env.records[0]["path"], "/a");
}

#[test]
fn rejects_mismatched_schema_version() {
    let s = r#"{"schema_version":999,"kind":"top","records":[]}"#;
    let err = parse_text(s).unwrap_err();
    assert!(err.to_text().contains("incompatible"));
}

#[test]
fn rejects_non_object_input() {
    let err = parse_text("[]").unwrap_err();
    assert!(err.to_text().contains("object"));
}

#[test]
fn rejects_invalid_json() {
    let err = parse_text("not json").unwrap_err();
    assert!(err.to_text().contains("not valid JSON"));
}

#[test]
fn require_kind_accepts_whitelisted() {
    let env = parse_text(&make("top", "[]")).unwrap();
    assert!(require_kind(&env, &["top", "find"]).is_ok());
    assert!(require_kind(&env, &["dirs", "ext"]).is_err());
}

#[test]
fn envelope_errors_and_messages() {
    assert_eq!(parse_text(r#"{"kind":"top"}"#).unwrap_err(), EnvelopeError::MissingSchemaVersion);
    assert_eq!(parse_text(r#"{"schema_version":1}"#).unwrap_err(), EnvelopeError::MissingKind);
    assert_eq!(parse_text(r#"{"schema_version":4294967297,"kind":"x"}"#).unwrap().schema_version, 1);
    let v: serde_json::Value = serde_json::from_str(r#"{"schema_version":2,"kind":"x"}"#).unwrap();
    let e = parse_value(v).unwrap_err();
    assert_eq!(e.to_text(), "envelope schema_version=2 is incompatible (expected 1)");
    let env = envelope_from_parts(true, Some(1), Some("top".to_string()), None).unwrap();
    let err = require_kind(&env, &["dirs", "ext"]).unwrap_err();
    assert_eq!(err.to_text(), "envelope kind 'top' not accepted here (expected one of: dirs, ext)");
    assert_eq!(envelope_from_parts(false, Some(1), None, None).unwrap_err(), EnvelopeError::NotObject);
}

#[test]
fn parse_text_reads_records_through() {
    let env = parse_text(r#" {"schema_version":1,"kind":"top","records":[{"path":"/a","size":3}]} "#).unwrap();
    assert_eq!(env.kind, "top");
    assert_eq!(env.records.len(), 1);
    assert_eq!(env.records[0]["path"], "/a");
}
