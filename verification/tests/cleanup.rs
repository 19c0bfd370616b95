use disky::cleanup::{
    basenames_for, default_target_names, requested_targets, is_protected, rank_hits, summarise, targets, unprotected_dirs, CleanupHit,
};

fn hit(category: &str, bytes: u64, files: u64) -> CleanupHit {
    CleanupHit { category: category.to_string(), path: format!("/tmp/{}-{}", category, bytes), bytes, files }
}

#[test]
fn default_target_names_covers_all_categories() {
    let names = default_target_names();
    assert_eq!(names.len(), targets().len());
    assert!(names.contains(&"node_modules"));
    assert!(names.contains(&"target"));
}

#[test]
fn summarise_aggregates_and_sorts_by_bytes_desc() {
    let hits = vec![hit("node_modules", 1024, 5), hit("node_modules", 2048, 10), hit("target", 8192, 3)];
    let summary = summarise(&hits);
    assert_eq!(summary.len(), 2);
    assert_eq!(summary[0].category, "target");
    assert_eq!(summary[0].bytes, 8192);
    assert_eq!(summary[1].category, "node_modules");
    assert_eq!(summary[1].bytes, 3072);
    assert_eq!(summary[1].paths, 2);
    assert_eq!(summary[1].files, 15);
}

#[test]
fn summarise_empty_input_returns_empty() {
    let summary = summarise(&[]);
    assert!(summary.is_empty());
}

#[test]
fn basenames_for_skips_unknown_targets() {
    let targets = vec!["node_modules".to_string(), "totally-fake".to_string()];
    let pairs = basenames_for(&targets);
    assert!(pairs.iter().all(|(n, _)| *n == "node_modules"));
    assert_eq!(pairs.len(), 1);
}

#[test]
fn basenames_for_expands_multi_basename_categories() {
    let targets = vec!["venv".to_string()];
    let pairs = basenames_for(&targets);
    let names: Vec<_> = pairs.iter().map(|(_, b)| *b).collect();
    assert!(names.contains(&".venv"));
    assert!(names.contains(&"venv"));
}

#[test]
fn is_protected_catches_cargo_registry() {
    assert!(is_protected("/Users/me/.cargo/registry/src/index.crates.io-1949cf8c6b5b557f/cc-1.2.62/src/target"));
    assert!(is_protected("/Users/me/.cargo/git/checkouts/foo"));
    assert!(is_protected("/Users/me/.rustup/toolchains/stable-aarch64-apple-darwin/lib"));
}

#[test]
fn is_protected_catches_python_site_packages() {
    assert!(is_protected("/Users/me/venv/lib/python3.13/site-packages/foo/build"));
}

#[test]
fn is_protected_catches_os_caches() {
    assert!(is_protected("/Users/me/Library/Caches/Slack/build"));
    assert!(is_protected("/Users/me/Library/Application Support/disky/build"));
    assert!(is_protected("/Users/me/Library/Group Containers/HUAQ24HBR6.dev.orbstack/data"));
}

#[test]
fn is_protected_passes_real_dev_dirs() {
    assert!(!is_protected("/Users/me/src/myapp/target"));
    assert!(!is_protected("/Users/me/src/myapp/node_modules"));
    assert!(!is_protected("/Users/me/src/myapp/.venv"));
    assert!(!is_protected("/Users/me/src/myapp/build"));
    assert!(!is_protected("/Users/me/src/myapp/dist"));
}

#[test]
fn summarise_breaks_ties_by_category_name() {
    let hits = vec![hit("zeta", 10, 1), hit("alpha", 10, 2), hit("mid", 99, 3), hit("alpha", 0, 4)];
    let s = summarise(&hits);
    let order: Vec<(&str, u64, u64, u64)> =
        s.iter().map(|c| (c.category.as_str(), c.paths, c.bytes, c.files)).collect();
    assert_eq!(order, vec![("mid", 1, 99, 3), ("alpha", 2, 10, 6), ("zeta", 1, 10, 1)]);
    let total: u64 = s.iter().map(|c| c.bytes).sum();
    assert_eq!(total, hits.iter().map(|h| h.bytes).sum::<u64>());
}

#[test]
fn basenames_keep_request_order() {
    let req = vec!["venv".to_string(), "target".to_string(), "venv".to_string()];
    let pairs = basenames_for(&req);
    assert_eq!(pairs, vec![("venv", ".venv"), ("venv", "venv"), ("target", "target"), ("venv", ".venv"), ("venv", "venv")]);
    assert_eq!(default_target_names()[2], "pycache");
}

#[test]
fn unprotected_dirs_drops_protected_paths_in_order() {
    let rows = vec![
        ("/a/node_modules".to_string(), "node_modules".to_string()),
        ("/u/.npm/x/node_modules".to_string(), "node_modules".to_string()),
        ("/b/target".to_string(), "target".to_string()),
    ];
    let kept = unprotected_dirs(&rows);
    assert_eq!(kept, vec![rows[0].clone(), rows[2].clone()]);
}

#[test]
fn rank_hits_categorises_sorts_stably_and_limits() {
    let pairs = basenames_for(&["venv".to_string(), "dist".to_string()]);
    let rows = vec![
        ("/p/venv".to_string(), "venv".to_string(), 100i64, 3i64),
        ("/q/dist".to_string(), "dist".to_string(), 500, 9),
        ("/r/.venv".to_string(), ".venv".to_string(), 100, 1),
        ("/s/odd".to_string(), "odd".to_string(), 7, 1),
    ];
    let out = rank_hits(&rows, &pairs, 3);
    let got: Vec<(&str, &str, u64, u64)> =
        out.iter().map(|h| (h.category.as_str(), h.path.as_str(), h.bytes, h.files)).collect();
    assert_eq!(got, vec![("dist", "/q/dist", 500, 9), ("venv", "/p/venv", 100, 3), ("venv", "/r/.venv", 100, 1)]);
    let all = rank_hits(&rows, &pairs, 10);
    assert_eq!(all.len(), 4);
    assert_eq!(all[3].category, "unknown");
}

#[test]
fn requested_targets_default_to_every_category() {
    let all: Vec<String> = default_target_names().into_iter().map(String::from).collect();
    assert_eq!(requested_targets(vec![]), all);
    let asked = vec!["node".to_string(), "nope".to_string()];
    assert_eq!(requested_targets(asked.clone()), asked);
}
