use disky::cli::{preferred_format, FormatArg};
use disky::render::Format;

#[test]
fn flag_wins_over_configured_format() {
    assert_eq!(preferred_format(Some(FormatArg::Ndjson), Some("text")), Some(Format::Ndjson));
    assert_eq!(preferred_format(Some(FormatArg::Text), None), Some(Format::Text));
}

#[test]
fn configured_format_applies_when_flag_is_absent() {
    assert_eq!(preferred_format(None, Some("Json")), Some(Format::Json));
    assert_eq!(preferred_format(None, Some("TEXT")), Some(Format::Text));
    assert_eq!(preferred_format(None, Some("xml")), None);
    assert_eq!(preferred_format(None, None), None);
}
