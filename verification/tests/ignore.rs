use disky::ignore::{default_skip_substrings, merge_patterns, parse, should_skip};

#[test]
fn should_skip_substring_match() {
    let patterns = vec!["foo".to_string()];
    assert!(should_skip("foo", &patterns));
    assert!(should_skip("myfoodir", &patterns));
    assert!(!should_skip("bar", &patterns));
}

#[test]
fn ignore_file_comments_and_blanks_skipped() {
    let body = "# header\n\nfoo\n   \n# trailing\nbar\n";
    assert_eq!(parse(body), vec!["foo".to_string(), "bar".to_string()]);
}

#[test]
fn ignore_file_malformed_lines_dropped_leniently() {
    let body = "*.log\n!keepme\n? maybe\nok_pattern\n";
    assert_eq!(parse(body), vec!["ok_pattern".to_string()]);
}

#[test]
fn ignore_file_trims_and_handles_crlf_and_last_line() {
    assert_eq!(parse("  a b \r\nc"), vec!["a b".to_string(), "c".to_string()]);
    assert!(parse("").is_empty());
    assert!(parse("\n\n").is_empty());
}

#[test]
fn merge_keeps_first_occurrence() {
    let mut acc = vec!["child_pat".to_string()];
    merge_patterns(&mut acc, &["parent_pat".to_string(), "child_pat".to_string(), "parent_pat".to_string()]);
    assert_eq!(acc, vec!["child_pat".to_string(), "parent_pat".to_string()]);
}

#[test]
fn default_skip_list_is_stable() {
    let d = default_skip_substrings();
    assert_eq!(d.len(), 10);
    assert_eq!(d[0], "node_modules");
    assert_eq!(d[9], ".pytest_cache");
    assert!(!should_skip("src", &d));
    assert!(should_skip("my_target_dir", &d));
}
