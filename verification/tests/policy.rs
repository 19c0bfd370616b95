use disky::policy::{apply_policy, apply_policy_checked, plan_retention, plan_retention_checked, Policy, SnapshotMeta};
use disky::snapshots::{LocalStamp, SnapshotTime};

fn snap(id: &str, bytes: u64) -> SnapshotMeta {
    SnapshotMeta { id: id.to_string(), path: format!("/tmp/{}.db", id), bytes, created: None }
}

#[test]
fn empty_policy_keeps_nothing() {
    let snaps = vec![snap("2026-05-15_11-56", 100)];
    let plan = apply_policy(&snaps, &Policy::default());
    assert_eq!(plan.kept.len(), 0);
    assert_eq!(plan.removed.len(), 1);
    assert_eq!(plan.total_removed_bytes, 100);
}

#[test]
fn keep_last_holds_newest_n() {
    let snaps = vec![
        snap("2026-05-15_11-00", 100),
        snap("2026-05-15_12-00", 200),
        snap("2026-05-15_13-00", 300),
    ];
    let plan = apply_policy(&snaps, &Policy { keep_last: Some(2), ..Default::default() });
    let kept_ids: Vec<&str> = plan.kept.iter().map(|k| k.id.as_str()).collect();
    assert_eq!(kept_ids, vec!["2026-05-15_13-00", "2026-05-15_12-00"]);
    assert_eq!(plan.removed.len(), 1);
    assert_eq!(plan.removed[0].id, "2026-05-15_11-00");
}

#[test]
fn keep_daily_takes_one_per_local_date() {
    let snaps = vec![
        snap("2026-05-13_10-00", 10),
        snap("2026-05-14_10-00", 20),
        snap("2026-05-14_15-00", 25),
        snap("2026-05-15_10-00", 30),
    ];
    let plan = apply_policy(&snaps, &Policy { keep_daily: Some(2), ..Default::default() });
    let kept: Vec<&str> = plan.kept.iter().map(|k| k.id.as_str()).collect();
    assert!(kept.contains(&"2026-05-15_10-00"));
    assert!(kept.contains(&"2026-05-14_15-00"));
    assert!(!kept.contains(&"2026-05-13_10-00"));
    assert!(!kept.contains(&"2026-05-14_10-00"));
}

#[test]
fn unparseable_id_is_skipped_never_removed() {
    let snaps = vec![snap("2026-05-15_11-00", 100), snap("my-manual-snapshot", 200)];
    let plan = apply_policy(&snaps, &Policy { keep_last: Some(1), ..Default::default() });
    assert_eq!(plan.skipped_unparseable, vec!["my-manual-snapshot"]);
    assert_eq!(plan.kept.len(), 1);
    assert_eq!(plan.removed.len(), 0);
}

#[test]
fn snapshot_kept_by_multiple_buckets_lists_all_reasons() {
    let snaps = vec![snap("2026-05-15_11-00", 100)];
    let plan = apply_policy(&snaps, &Policy { keep_last: Some(1), keep_daily: Some(1), ..Default::default() });
    assert_eq!(plan.kept.len(), 1);
    assert!(plan.kept[0].reasons.contains(&"last"));
    assert!(plan.kept[0].reasons.contains(&"daily"));
}

#[test]
fn total_removed_bytes_sums_correctly() {
    let snaps = vec![
        snap("2026-05-13_10-00", 10),
        snap("2026-05-14_10-00", 20),
        snap("2026-05-15_10-00", 30),
    ];
    let plan = apply_policy(&snaps, &Policy { keep_last: Some(1), ..Default::default() });
    assert_eq!(plan.total_removed_bytes, 30);
}

fn at(instant: i64, year: i32, month: u32, day: u32, iso_week: u32) -> Option<SnapshotTime> {
    Some(SnapshotTime {
        stamp: LocalStamp { year, month, day, hour: 0, minute: 0, iso_year: year, iso_week },
        instant,
    })
}

#[test]
fn plan_with_given_times_orders_and_buckets() {
    let snaps = vec![snap("a", 1), snap("b", 2), snap("c", 4), snap("d", 8), snap("e", 16)];
    let times = vec![
        at(100, 2025, 1, 6, 2),
        at(400, 2025, 2, 3, 6),
        None,
        at(300, 2025, 1, 27, 5),
        at(200, 2025, 1, 20, 4),
    ];
    let policy = Policy { keep_monthly: Some(2), keep_weekly: Some(1), ..Default::default() };
    let plan = plan_retention(&snaps, &times, &policy);
    let kept: Vec<(&str, Vec<&str>)> = plan.kept.iter().map(|k| (k.id.as_str(), k.reasons.clone())).collect();
    assert_eq!(kept, vec![("b", vec!["monthly", "weekly"]), ("d", vec!["monthly"])]);
    let removed: Vec<&str> = plan.removed.iter().map(|s| s.id.as_str()).collect();
    assert_eq!(removed, vec!["e", "a"]);
    assert_eq!(plan.skipped_unparseable, vec!["c"]);
    assert_eq!(plan.total_removed_bytes, 17);
}

#[test]
fn plan_equal_times_keep_input_order() {
    let snaps = vec![snap("x", 1), snap("y", 2), snap("z", 3)];
    let times = vec![at(50, 2024, 3, 1, 9), at(50, 2024, 3, 1, 9), at(10, 2023, 2, 1, 5)];
    let plan = plan_retention(&snaps, &times, &Policy { keep_last: Some(1), keep_yearly: Some(5), ..Default::default() });
    let kept: Vec<(&str, Vec<&str>)> = plan.kept.iter().map(|k| (k.id.as_str(), k.reasons.clone())).collect();
    assert_eq!(kept, vec![("x", vec!["last", "yearly"]), ("z", vec!["yearly"])]);
    assert_eq!(plan.removed.len(), 1);
    assert_eq!(plan.removed[0].id, "y");
    assert_eq!(plan.total_removed_bytes, 2);
}

#[test]
fn plan_duplicate_ids_share_reasons() {
    let snaps = vec![snap("same", 1), snap("same", 2)];
    let times = vec![at(20, 2024, 1, 1, 1), at(10, 2024, 1, 1, 1)];
    let plan = plan_retention(&snaps, &times, &Policy { keep_last: Some(1), ..Default::default() });
    assert_eq!(plan.kept.len(), 2);
    assert_eq!(plan.removed.len(), 0);
}

#[test]
fn policy_is_empty_only_without_rules() {
    assert!(Policy::default().is_empty());
    assert!(!Policy { keep_yearly: Some(0), ..Default::default() }.is_empty());
}

#[test]
fn checked_policy_refuses_overflowing_totals() {
    let snaps = vec![
        SnapshotMeta { id: "2026-05-14_11-56".to_string(), path: "/a".to_string(), bytes: u64::MAX, created: None },
        SnapshotMeta { id: "2026-05-15_11-56".to_string(), path: "/b".to_string(), bytes: 1, created: None },
        SnapshotMeta { id: "2026-05-16_11-56".to_string(), path: "/c".to_string(), bytes: 1, created: None },
    ];
    let policy = Policy { keep_last: Some(1), keep_daily: None, keep_weekly: None, keep_monthly: None, keep_yearly: None };
    assert!(apply_policy_checked(&snaps, &policy).is_none());
    let ok = vec![snaps[1].clone(), snaps[2].clone()];
    assert!(apply_policy_checked(&ok, &policy).is_some());
}

#[test]
fn checked_policy_counts_only_removed_bytes() {
    // The kept snapshot's bytes do not enter the total, so a readable
    // total beyond u64::MAX is no refusal.
    let snaps = vec![
        SnapshotMeta { id: "2026-05-15_11-56".to_string(), path: "/a".to_string(), bytes: u64::MAX, created: None },
        SnapshotMeta { id: "2026-05-16_11-56".to_string(), path: "/b".to_string(), bytes: 1, created: None },
    ];
    let policy = Policy { keep_last: Some(1), keep_daily: None, keep_weekly: None, keep_monthly: None, keep_yearly: None };
    let plan = apply_policy_checked(&snaps, &policy).unwrap();
    assert_eq!(plan.kept.len(), 1);
    assert_eq!(plan.kept[0].id, "2026-05-16_11-56");
    assert_eq!(plan.total_removed_bytes, u64::MAX);
}

#[test]
fn checked_plan_refuses_only_when_removed_bytes_overflow() {
    let snaps = vec![snap("a", u64::MAX), snap("b", 1), snap("c", 1)];
    let times = vec![at(10, 2024, 1, 1, 1), at(20, 2024, 1, 2, 1), at(30, 2024, 1, 3, 1)];
    let last = Policy { keep_last: Some(1), ..Default::default() };
    assert!(plan_retention_checked(&snaps, &times, &last).is_none());
    let two = Policy { keep_last: Some(2), ..Default::default() };
    let plan = plan_retention_checked(&snaps, &times, &two).unwrap();
    assert_eq!(plan.removed.len(), 1);
    assert_eq!(plan.removed[0].id, "a");
    assert_eq!(plan.total_removed_bytes, u64::MAX);
}
