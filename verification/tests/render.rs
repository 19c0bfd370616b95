use disky::render::{choose_format, column_width, format_named, truncate_head, truncate_tail, Format};

#[test]
fn machine_formats() {
    assert!(Format::Json.is_machine());
    assert!(Format::Ndjson.is_machine());
    assert!(!Format::Text.is_machine());
}

#[test]
fn explicit_format_wins_else_terminal_decides() {
    assert_eq!(choose_format(Some(Format::Ndjson), true), Format::Ndjson);
    assert_eq!(choose_format(None, true), Format::Text);
    assert_eq!(choose_format(None, false), Format::Json);
}

#[test]
fn truncation_keeps_tail_or_head() {
    assert_eq!(truncate_tail("short", 10), "short");
    assert_eq!(truncate_tail("/very/long/path/name", 10), "...th/name");
    assert_eq!(truncate_tail("abcdefghij", 10), "abcdefghij");
    assert_eq!(truncate_head("abcdefgh", 5), "abcd…");
    assert_eq!(truncate_head("abc", 3), "abc");
    assert_eq!(truncate_head("abc", 0), "…");
}

#[test]
fn format_names_ignore_ascii_case() {
    assert_eq!(format_named("text"), Some(Format::Text));
    assert_eq!(format_named("JSON"), Some(Format::Json));
    assert_eq!(format_named("NdJson"), Some(Format::Ndjson));
    assert_eq!(format_named("yaml"), None);
    assert_eq!(format_named(" json"), None);
    assert_eq!(format_named(""), None);
}

#[test]
fn column_width_fits_cells_and_header() {
    assert_eq!(column_width(4, &[Some(2), Some(9), None]), 9);
    assert_eq!(column_width(10, &[Some(2), None]), 10);
    assert_eq!(column_width(1, &[None]), 4);
    assert_eq!(column_width(3, &[Some(200)]), 80);
    assert_eq!(column_width(90, &[]), 80);
    assert_eq!(column_width(5, &[]), 5);
}
