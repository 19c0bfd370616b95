use disky::db::ScanMeta;
use disky::query::{clamp_size, like_pattern, sql_literal, diff_row, file_row, growth_kind_of, rfc3339, stats_with_meta, Stats, SCHEMA_VERSION};

#[test]
fn schema_version_is_one() {
    assert_eq!(SCHEMA_VERSION, 1);
}

#[test]
fn rfc3339_renders_utc_seconds() {
    assert_eq!(rfc3339(None), None);
    assert_eq!(rfc3339(Some(1_700_000_000)), Some("2023-11-14T22:13:20Z".to_string()));
    let r = file_row("/a".to_string(), 3, Some("txt".to_string()), Some(0));
    assert_eq!(r.mtime, Some("1970-01-01T00:00:00Z".to_string()));
    assert_eq!(r.ext, Some("txt".to_string()));
}

#[test]
fn diff_rows_classify_changes() {
    assert_eq!(diff_row("/n".to_string(), 0, 10, 10, false, true).kind, "added");
    assert_eq!(diff_row("/r".to_string(), 10, 0, -10, true, false).kind, "removed");
    assert_eq!(diff_row("/g".to_string(), 10, 30, 20, true, true).kind, "grew");
    assert_eq!(diff_row("/s".to_string(), 30, 10, -20, true, true).kind, "shrank");
    // A new empty file is added, not shrunk; an emptied one shrank.
    assert_eq!(diff_row("/e".to_string(), 0, 0, 0, false, true).kind, "added");
    assert_eq!(diff_row("/t".to_string(), 10, 0, -10, true, true).kind, "shrank");
    let d = diff_row("/g".to_string(), 4096, 8192, 4096, true, true);
    assert_eq!((d.size_a, d.size_b, d.delta), (4096, 8192, 4096));
}

#[test]
fn growth_kinds_and_clamped_sizes() {
    assert_eq!(growth_kind_of(0, 5, 5), "added");
    assert_eq!(growth_kind_of(5, 0, -5), "removed");
    assert_eq!(growth_kind_of(5, 9, 4), "grew");
    assert_eq!(growth_kind_of(9, 5, -4), "shrank");
    assert_eq!(clamp_size(-3), 0);
    assert_eq!(clamp_size(42), 42);
}

fn base_stats() -> Stats {
    Stats {
        files: 4,
        dirs: 1,
        total_bytes: 100,
        largest_bytes: 60,
        avg_bytes: 25,
        partial: false,
        scan_root: None,
        scan_duration_s: None,
        scanned_at: None,
    }
}

#[test]
fn stats_fold_in_scan_meta() {
    let meta = ScanMeta {
        root: "/data".to_string(),
        started_at: 1_700_000_000,
        ended_at: Some(1_700_000_042),
        completed: false,
        entries: 5,
        bytes: 100,
    };
    let s = stats_with_meta(base_stats(), Some(meta));
    assert!(s.partial);
    assert_eq!(s.scan_root.as_deref(), Some("/data"));
    assert_eq!(s.scan_duration_s, Some(42));
    assert_eq!(s.scanned_at.as_deref(), Some("2023-11-14T22:13:20Z"));
    assert_eq!(s.total_bytes, 100);
    let t = stats_with_meta(base_stats(), None);
    assert!(!t.partial);
    assert!(t.scan_root.is_none());
}

#[test]
fn scan_duration_never_negative() {
    let mut m = ScanMeta { root: "/".to_string(), started_at: 100, ended_at: Some(90), completed: true, entries: 0, bytes: 0 };
    assert_eq!(m.duration_secs(), Some(0));
    m.ended_at = None;
    assert_eq!(m.duration_secs(), None);
}

#[test]
fn glob_becomes_like_pattern() {
    assert_eq!(like_pattern("*.log"), "%.log");
    assert_eq!(like_pattern("report-??.csv"), "report-__.csv");
    assert_eq!(like_pattern("plain"), "plain");
    assert_eq!(like_pattern(""), "");
}

#[test]
fn sql_literal_doubles_quotes() {
    assert_eq!(sql_literal("/tmp/a.db"), "'/tmp/a.db'");
    assert_eq!(sql_literal("/tmp/it's.db"), "'/tmp/it''s.db'");
    assert_eq!(sql_literal("''"), "''''''");
    assert_eq!(sql_literal(""), "''");
}

#[test]
fn rfc3339_handles_none() {
    assert!(rfc3339(None).is_none());
    let s = rfc3339(Some(1_700_000_000)).unwrap();
    assert!(s.starts_with("2023-"));
    assert!(s.ends_with("Z"));
}
