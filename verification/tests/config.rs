use disky::config::Config;

#[test]
fn empty_config_returns_defaults() {
    let c = Config::default();
    assert!(c.format().is_none());
    assert!(c.snapshot().is_none());
}

#[test]
fn env_overrides_replace_only_what_is_set() {
    let mut c = Config::default();
    c.defaults.format = Some("text".to_string());
    c.defaults.snapshot = Some("@latest".to_string());
    let c = c.with_env_overrides(Some("json".to_string()), None);
    assert_eq!(c.format(), Some("json"));
    assert_eq!(c.snapshot(), Some("@latest"));
}
