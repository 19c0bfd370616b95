use disky::filter::{read_literal, FieldValue, FilterError, Lit, Predicate, Record};

fn rec(path: &str, size: i64, ext: &str) -> Record {
    Record {
        fields: vec![
            ("path".to_string(), FieldValue::Str(path.to_string())),
            ("size".to_string(), FieldValue::Num(size)),
            ("ext".to_string(), FieldValue::Str(ext.to_string())),
        ],
    }
}

#[test]
fn parses_simple_int_predicate() {
    let p = Predicate::parse("size > 1024").unwrap();
    assert!(p.matches(&rec("/a", 2048, "bin")));
    assert!(!p.matches(&rec("/a", 100, "bin")));
}

#[test]
fn parses_size_suffix() {
    let p = Predicate::parse("size > 1GB").unwrap();
    assert!(p.matches(&rec("/a", 2 * 1024 * 1024 * 1024, "bin")));
    assert!(!p.matches(&rec("/a", 500, "bin")));
}

#[test]
fn parses_string_equality() {
    let p = Predicate::parse("ext = 'log'").unwrap();
    assert!(p.matches(&rec("/a", 100, "log")));
    assert!(!p.matches(&rec("/a", 100, "bin")));
}

#[test]
fn ne_returns_true_on_missing_field() {
    let p = Predicate::parse("missing != 'x'").unwrap();
    assert!(p.matches(&rec("/a", 100, "log")));
}

#[test]
fn parses_and_chain() {
    let p = Predicate::parse("size > 1KB AND ext = 'log'").unwrap();
    assert!(p.matches(&rec("/big.log", 4096, "log")));
    assert!(!p.matches(&rec("/big.bin", 4096, "bin")));
    assert!(!p.matches(&rec("/small.log", 100, "log")));
}

#[test]
fn like_with_percent_wildcards() {
    let p = Predicate::parse("path LIKE '%.log'").unwrap();
    assert!(p.matches(&rec("/var/foo.log", 0, "log")));
    assert!(!p.matches(&rec("/var/foo.bin", 0, "bin")));

    let p2 = Predicate::parse("path LIKE '/Users/%/Library/%'").unwrap();
    assert!(p2.matches(&rec("/Users/me/Library/Caches", 0, "")));
    assert!(!p2.matches(&rec("/etc/hosts", 0, "")));
}

#[test]
fn empty_predicate_matches_everything() {
    let p = Predicate::parse("").unwrap();
    assert!(p.matches(&rec("/a", 100, "log")));
}

#[test]
fn rejects_predicate_without_operator() {
    assert!(Predicate::parse("just words").is_err());
}

#[test]
fn parses_kib_alias() {
    let p = Predicate::parse("size >= 1KiB").unwrap();
    assert!(p.matches(&rec("/a", 1024, "bin")));
    assert!(!p.matches(&rec("/a", 1023, "bin")));
}

#[test]
fn filter_errors_name_the_cause() {
    assert!(matches!(Predicate::parse("just words"), Err(FilterError::NoOperator(c)) if c == "just words"));
    assert!(matches!(Predicate::parse("= 5"), Err(FilterError::NoField(c)) if c == "= 5"));
    assert!(matches!(Predicate::parse("size >"), Err(FilterError::EmptyLiteral)));
    assert!(matches!(Predicate::parse("size > xKB"), Err(FilterError::BadSizeLiteral(l)) if l == "xKB"));
    assert!(matches!(Predicate::parse("size > 1 and name ="), Err(FilterError::EmptyLiteral)));
}

#[test]
fn quoted_and_is_not_a_separator() {
    let p = Predicate::parse("name = 'salt and pepper'").unwrap();
    let r = Record { fields: vec![("name".to_string(), FieldValue::Str("salt and pepper".to_string()))] };
    assert!(p.matches(&r));
    let q = Predicate::parse("size > 1 and size < 10").unwrap();
    assert!(q.matches(&rec("/a", 5, "")));
    assert!(!q.matches(&rec("/a", 10, "")));
}

#[test]
fn kind_mismatch_only_satisfies_ne() {
    let p = Predicate::parse("ext = 5").unwrap();
    assert!(!p.matches(&rec("/a", 1, "5")));
    let q = Predicate::parse("ext != 5").unwrap();
    assert!(q.matches(&rec("/a", 1, "5")));
    let r = Record { fields: vec![("size".to_string(), FieldValue::Other)] };
    assert!(!Predicate::parse("size > 0").unwrap().matches(&r));
    assert!(Predicate::parse("size != 0").unwrap().matches(&r));
}

#[test]
fn like_with_underscore_and_gt_on_strings() {
    let p = Predicate::parse("ext LIKE 'l_g'").unwrap();
    assert!(p.matches(&rec("/a", 1, "log")));
    assert!(!p.matches(&rec("/a", 1, "logs")));
    let q = Predicate::parse("ext > 'a'").unwrap();
    assert!(!q.matches(&rec("/a", 1, "b")));
    let r = Predicate::parse("size LIKE 5").unwrap();
    assert!(!r.matches(&rec("/a", 5, "")));
}

#[test]
fn literal_reading() {
    assert!(matches!(read_literal("'x y'", "'X Y'"), Ok(Lit::Str(s)) if s == "x y"));
    assert!(matches!(read_literal("2mb", "2MB"), Ok(Lit::Int(2097152))));
    assert!(matches!(read_literal("-3", "-3"), Ok(Lit::Int(-3))));
    assert!(matches!(read_literal("10000000TB", "10000000TB"), Ok(Lit::Int(i64::MAX))));
    assert!(matches!(read_literal("hello", "HELLO"), Ok(Lit::Str(s)) if s == "hello"));
    assert!(matches!(read_literal("'", "'"), Err(FilterError::MalformedString)));
    assert!(matches!(read_literal("7 b", "7 B"), Ok(Lit::Int(7))));
}

#[test]
fn size_literal_uses_unicode_uppercase() {
    let p = Predicate::parse("size = 3kb").unwrap();
    assert!(p.matches(&rec("/a", 3072, "")));
}

#[test]
fn select_keeps_order_and_limit() {
    let records = vec![rec("/a.log", 10, "log"), rec("/b.bin", 5000, "bin"), rec("/c.log", 20, "log"), rec("/d.log", 30, "log")];
    let p = Predicate::parse("ext = 'log'").unwrap();
    assert_eq!(p.select(&records, 10), vec![0, 2, 3]);
    assert_eq!(p.select(&records, 2), vec![0, 2]);
    assert_eq!(p.select(&records, 0), Vec::<usize>::new());
    let all = Predicate::parse("").unwrap();
    assert_eq!(all.select(&records, 3), vec![0, 1, 2]);
}

#[test]
fn filter_error_messages() {
    assert_eq!(Predicate::parse("just words").unwrap_err().to_text(), "predicate 'just words' has no operator");
    assert_eq!(Predicate::parse("= 5").unwrap_err().to_text(), "predicate '= 5' has no field");
    assert_eq!(Predicate::parse("size >").unwrap_err().to_text(), "empty literal");
    assert_eq!(Predicate::parse("size > xKB").unwrap_err().to_text(), "bad size literal 'xKB'");
}

#[test]
fn and_of_two_filters_matches_when_both_do() {
    let a = "size > 1KB";
    let b = "ext = 'log'";
    let joined = Predicate::parse(&format!("{} AND {}", a, b)).unwrap();
    let pa = Predicate::parse(a).unwrap();
    let pb = Predicate::parse(b).unwrap();
    for r in [rec("/a.log", 5000, "log"), rec("/b.log", 10, "log"), rec("/c.bin", 5000, "bin"), rec("/d", 1, "txt")] {
        assert_eq!(joined.matches(&r), pa.matches(&r) && pb.matches(&r));
    }
}
