use disky::snapshots::{id_for, parse_id, resolve, snapshot_listing, spec_target, SnapshotRef};

const DATA_DIR: &str = "/home/u/.local/share/disky";

#[test]
fn id_for_extracts_file_stem() {
    assert_eq!(id_for("/var/db/2026-05-15_11-56.db"), Some("2026-05-15_11-56".to_string()));
    assert_eq!(id_for("snap.db"), Some("snap".to_string()));
}

#[test]
fn id_for_edge_cases() {
    assert_eq!(id_for("/"), None);
    assert_eq!(id_for("/var/db/.hidden"), Some(".hidden".to_string()));
    assert_eq!(id_for("a.b.db"), Some("a.b".to_string()));
}

#[test]
fn spec_target_distinguishes_latest_paths_and_ids() {
    assert_eq!(spec_target("@latest"), SnapshotRef::Latest);
    assert_eq!(spec_target("/tmp/explicit.db"), SnapshotRef::Path("/tmp/explicit.db".to_string()));
    assert_eq!(spec_target("local.db"), SnapshotRef::Path("local.db".to_string()));
    assert_eq!(spec_target("nonexistent-id-xyz"), SnapshotRef::Id("nonexistent-id-xyz".to_string()));
    assert_eq!(spec_target(".hidden"), SnapshotRef::Id(".hidden".to_string()));
    assert_eq!(spec_target(".."), SnapshotRef::Id("..".to_string()));
    assert_eq!(spec_target("a."), SnapshotRef::Path("a.".to_string()));
}

#[test]
fn parse_id_reads_canonical_ids_only() {
    let t = parse_id("2026-05-15_11-56").unwrap();
    assert_eq!(t.stamp.year, 2026);
    assert_eq!(t.stamp.month, 5);
    assert_eq!(t.stamp.day, 15);
    assert_eq!(t.stamp.hour, 11);
    assert_eq!(t.stamp.minute, 56);
    assert_eq!(t.stamp.iso_week, 20);
    assert!(parse_id("my-manual-snapshot").is_none());
    assert!(parse_id("2026-13-01_00-00").is_none());
    let a = parse_id("2026-05-15_11-00").unwrap();
    let b = parse_id("2026-05-15_12-00").unwrap();
    assert_eq!(b.instant - a.instant, 3600);
}

#[test]
fn resolve_returns_explicit_path_unchanged() {
    // Anything containing `/` is treated as a path, not looked up by ID.
    let path = "/tmp/explicit.db";
    assert_eq!(resolve(path, DATA_DIR, &[]).unwrap(), path);
}

#[test]
fn resolve_returns_path_with_extension_unchanged() {
    assert_eq!(resolve("local.db", DATA_DIR, &[]).unwrap(), "local.db");
}

#[test]
fn resolve_missing_id_returns_not_found_message() {
    let err = resolve("nonexistent-id-xyz", DATA_DIR, &[]).unwrap_err();
    assert!(err.contains("not found"));
    assert_eq!(err, "snapshot 'nonexistent-id-xyz' not found in /home/u/.local/share/disky (not found)");
}

fn entries() -> Vec<(String, u64)> {
    vec![
        ("2026-05-15_11-56.db".to_string(), 10),
        ("notes.txt".to_string(), 1),
        ("2026-05-16_09-00.db".to_string(), 20),
        (".db".to_string(), 5),
        ("2026-05-14_08-30.db".to_string(), 30),
    ]
}

#[test]
fn resolve_finds_ids_and_the_latest_snapshot() {
    assert_eq!(
        resolve("2026-05-15_11-56", DATA_DIR, &entries()).unwrap(),
        "/home/u/.local/share/disky/2026-05-15_11-56.db"
    );
    assert_eq!(
        resolve("@latest", DATA_DIR, &entries()).unwrap(),
        "/home/u/.local/share/disky/2026-05-16_09-00.db"
    );
    assert_eq!(resolve("@latest", "/data/", &entries()).unwrap(), "/data/2026-05-16_09-00.db");
    assert_eq!(
        resolve("@latest", DATA_DIR, &[("notes.txt".to_string(), 1)]).unwrap_err(),
        "no snapshot found; run `disky scan` first (not found)"
    );
    assert!(resolve("notes", DATA_DIR, &entries()).is_err());
}

#[test]
fn snapshot_listing_keeps_db_files_sorted_by_name() {
    let listed = snapshot_listing(&entries());
    assert_eq!(
        listed,
        vec![
            ("2026-05-14_08-30.db".to_string(), 30),
            ("2026-05-15_11-56.db".to_string(), 10),
            ("2026-05-16_09-00.db".to_string(), 20),
        ]
    );
    assert!(snapshot_listing(&[]).is_empty());
}

#[test]
fn id_for_round_trips_through_resolve() {
    let dir = tempfile::tempdir().unwrap();
    let db_path = dir.path().join("snap.db");
    let path = db_path.to_str().unwrap();
    let id = id_for(path).unwrap();
    // Resolving an absolute path returns it unchanged.
    let resolved = resolve(path, DATA_DIR, &[]).unwrap();
    assert_eq!(resolved, path);
    assert_eq!(id, "snap");
}

#[test]
fn latest_with_offset_counts_back_from_newest() {
    assert_eq!(spec_target("@latest~2"), SnapshotRef::Back(2));
    assert_eq!(spec_target("@latest~"), SnapshotRef::Id("@latest~".to_string()));
    assert_eq!(spec_target("@latest~1x"), SnapshotRef::Id("@latest~1x".to_string()));
    assert_eq!(
        resolve("@latest~1", DATA_DIR, &entries()).unwrap(),
        "/home/u/.local/share/disky/2026-05-15_11-56.db"
    );
    assert_eq!(resolve("@latest~0", DATA_DIR, &entries()).unwrap(), resolve("@latest", DATA_DIR, &entries()).unwrap());
    assert_eq!(
        resolve("@latest~2", DATA_DIR, &entries()).unwrap(),
        "/home/u/.local/share/disky/2026-05-14_08-30.db"
    );
    assert_eq!(resolve("@latest~3", DATA_DIR, &entries()).unwrap_err(), "no snapshot at @latest~3 (not found)");
}

#[test]
fn snapshot_time_keeps_the_zone_reading() {
    let stamp = parse_id("2026-05-15_11-56").unwrap().stamp;
    let t = disky::snapshots::snapshot_time(stamp, Some(1_778_846_160)).unwrap();
    assert_eq!(t.stamp, stamp);
    assert_eq!(t.instant, 1_778_846_160);
    assert!(disky::snapshots::snapshot_time(stamp, None).is_none());
}

#[test]
fn id_for_agrees_with_path_file_stem() {
    for p in [
        "/var/db/2026-05-15_11-56.db", "snap.db", "/", "", ".", "..", "a/..", "a/.", "./a.b.c", "a//b.db/",
        "/x/.hidden", "/x/.hidden.db", "a.", "..db", "dir/", "/a/b/../c.tar.gz", "./",
    ] {
        let expected = std::path::Path::new(p).file_stem().map(|s| s.to_string_lossy().into_owned());
        assert_eq!(id_for(p), expected, "path {:?}", p);
    }
}

#[test]
fn resolved_ids_read_back() {
    let path = resolve("2026-05-15_11-56", DATA_DIR, &entries()).unwrap();
    assert_eq!(id_for(&path), Some("2026-05-15_11-56".to_string()));
}
