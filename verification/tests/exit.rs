use disky::exit::{classify, classify_parts, DiskyError, ExitCode, IoKind};

#[test]
fn slug_table_is_stable() {
    assert_eq!(ExitCode::Success.slug(), "ok");
    assert_eq!(ExitCode::Generic.slug(), "generic");
    assert_eq!(ExitCode::Usage.slug(), "usage");
    assert_eq!(ExitCode::Io.slug(), "io");
    assert_eq!(ExitCode::NotFound.slug(), "not-found");
    assert_eq!(ExitCode::PartialScan.slug(), "partial-scan");
    assert_eq!(ExitCode::LockHeld.slug(), "lock-held");
}

#[test]
fn retryable_flag_set_only_for_transient_codes() {
    assert!(DiskyError::lock_held("x").retryable);
    assert!(DiskyError::io("x").retryable);
    assert!(!DiskyError::not_found("x").retryable);
    assert!(!DiskyError::generic("x").retryable);
}

#[test]
fn classify_lock_held_via_message() {
    let err = anyhow::Error::msg("Could not set lock on file");
    assert_eq!(classify(err).code, ExitCode::LockHeld);
}

#[test]
fn classify_generic_fallback() {
    let err = anyhow::Error::msg("something unexpected");
    assert_eq!(classify(err).code, ExitCode::Generic);
}

#[test]
fn instance_is_unique_per_error() {
    let a = DiskyError::generic("x");
    let b = DiskyError::generic("y");
    assert_ne!(a.instance, b.instance);
    assert!(a.instance.starts_with("disky-"));
}

#[test]
fn display_includes_title_and_detail() {
    let e = DiskyError::not_found("/missing.db");
    let s = e.to_text();
    assert!(s.contains("snapshot not found"));
    assert!(s.contains("/missing.db"));
}

#[test]
fn classify_io_kinds_decide_alone() {
    let e = classify(anyhow::Error::from(std::io::Error::new(std::io::ErrorKind::NotFound, "boom")));
    assert_eq!(e.code, ExitCode::NotFound);
    let e = classify(anyhow::Error::from(std::io::Error::new(std::io::ErrorKind::PermissionDenied, "denied")));
    assert_eq!(e.code, ExitCode::Io);
    assert!(e.retryable);
    let e = classify_parts(Some(IoKind::Other), "database is locked");
    assert_eq!(e.code, ExitCode::Io);
}

#[test]
fn classify_parts_reads_lowercased_message() {
    assert_eq!(classify_parts(None, "DATABASE IS LOCKED").code, ExitCode::LockHeld);
    assert_eq!(classify_parts(None, "IO Error: No such file").code, ExitCode::NotFound);
    assert_eq!(classify_parts(None, "Read-only file system").code, ExitCode::Io);
    let e = classify_parts(None, "weird");
    assert_eq!(e.code, ExitCode::Generic);
    assert_eq!(e.detail, "weird");
    assert_eq!(e.title, "error");
}

#[test]
fn exit_numbers_are_stable() {
    assert_eq!(ExitCode::Success.number(), 0);
    assert_eq!(ExitCode::Generic.number(), 1);
    assert_eq!(ExitCode::Usage.number(), 2);
    assert_eq!(ExitCode::Io.number(), 3);
    assert_eq!(ExitCode::NotFound.number(), 4);
    assert_eq!(ExitCode::PartialScan.number(), 5);
    assert_eq!(ExitCode::LockHeld.number(), 6);
}

#[test]
fn instance_has_padded_nanos() {
    let e = DiskyError::new(ExitCode::Usage, "bad", "flag");
    let parts: Vec<&str> = e.instance.split('-').collect();
    assert_eq!(parts.len(), 4);
    assert_eq!(parts[0], "disky");
    assert_eq!(parts[2].len(), 9);
    assert!(!e.retryable);
}

#[test]
fn problem_type_uri_ends_in_slug() {
    assert_eq!(ExitCode::NotFound.problem_type(), "https://disky.dev/errors/not-found");
    assert_eq!(ExitCode::Success.problem_type(), "https://disky.dev/errors/ok");
    assert_eq!(ExitCode::LockHeld.problem_type(), "https://disky.dev/errors/lock-held");
}

#[test]
fn classify_io_not_found() {
    let io = std::io::Error::new(std::io::ErrorKind::NotFound, "boom");
    let classified = classify(anyhow::Error::from(io));
    assert_eq!(classified.code, ExitCode::NotFound);
}

#[test]
fn classify_io_permission_denied_maps_to_io() {
    let io = std::io::Error::new(std::io::ErrorKind::PermissionDenied, "denied");
    let classified = classify(anyhow::Error::from(io));
    assert_eq!(classified.code, ExitCode::Io);
}
