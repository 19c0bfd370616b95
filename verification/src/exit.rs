//! Stable exit codes and the typed error surface that carries them.

use vstd::prelude::*;
use vstd::string::*;
use std::hash::BuildHasher;

use crate::text::{chars_of, contains, contains_chars, decimal, decimal_chars, zero_pad, zero_pad_chars, string_of, append_chars};

verus! {

/// Stable exit-code taxonomy; `number` gives the process status.
#[derive(Debug, Clone, Copy, PartialEq, Eq, Structural)]
pub enum ExitCode {
    Success,
    Generic,
    Usage,
    Io,
    NotFound,
    PartialScan,
    LockHeld,
}

pub open spec fn exit_number(c: ExitCode) -> int {
    match c {
        ExitCode::Success => 0,
        ExitCode::Generic => 1,
        ExitCode::Usage => 2,
        ExitCode::Io => 3,
        ExitCode::NotFound => 4,
        ExitCode::PartialScan => 5,
        ExitCode::LockHeld => 6,
    }
}

/// Identifier used in error `type` URIs and JSON payloads.
pub open spec fn slug_text(c: ExitCode) -> Seq<char> {
    match c {
        ExitCode::Success => "ok"@,
        ExitCode::Generic => "generic"@,
        ExitCode::Usage => "usage"@,
        ExitCode::Io => "io"@,
        ExitCode::NotFound => "not-found"@,
        ExitCode::PartialScan => "partial-scan"@,
        ExitCode::LockHeld => "lock-held"@,
    }
}

/// Codes whose failures are transient and worth retrying.
pub open spec fn is_retryable(c: ExitCode) -> bool {
    c == ExitCode::LockHeld || c == ExitCode::Io
}

impl ExitCode {
    /// Numeric process exit status of this code.
    pub fn number(self) -> (n: i32)
        ensures
            n == exit_number(self),
    {
        match self {
            ExitCode::Success => 0,
            ExitCode::Generic => 1,
            ExitCode::Usage => 2,
            ExitCode::Io => 3,
            ExitCode::NotFound => 4,
            ExitCode::PartialScan => 5,
            ExitCode::LockHeld => 6,
        }
    }

    /// Stable identifier for error `type` URIs and JSON error payloads.
    pub fn slug(self) -> (s: &'static str)
        ensures
            s@ == slug_text(self),
    {
        match self {
            ExitCode::Success => "ok",
            ExitCode::Generic => "generic",
            ExitCode::Usage => "usage",
            ExitCode::Io => "io",
            ExitCode::NotFound => "not-found",
            ExitCode::PartialScan => "partial-scan",
            ExitCode::LockHeld => "lock-held",
        }
    }

    /// The problem-type URI of machine-readable error payloads.
    pub fn problem_type(self) -> (s: String)
        ensures
            s@ == "https://disky.dev/errors/"@ + slug_text(self),
    {
        String::from_str("https://disky.dev/errors/").concat(self.slug())
    }
}

/// Typed error: a stable code plus a human title and detail.
#[derive(Debug)]
pub struct DiskyError {
    pub code: ExitCode,
    pub title: &'static str,
    pub detail: String,
    pub retryable: bool,
    /// Per-error instance identifier, `disky-<secs>-<nanos>-<nonce>`.
    pub instance: String,
}

/// Instance identifier text built from a clock reading and a nonce.
pub open spec fn instance_text(secs: u64, nanos: u32, nonce: u64) -> Seq<char> {
    "disky-"@ + decimal(secs as nat) + "-"@ + zero_pad(decimal(nanos as nat), 9) + "-"@
        + decimal(nonce as nat)
}

/// `instance` has the shape produced by `fresh_instance`.
pub open spec fn is_instance_text(s: Seq<char>) -> bool {
    exists|secs: u64, nanos: u32, nonce: u64| nanos < 1_000_000_000 && s == instance_text(secs, nanos, nonce)
}

/// The clock: seconds and sub-second nanoseconds since the Unix epoch
/// (`SystemTime::now().duration_since(UNIX_EPOCH)`, zero before the epoch).
/// Only the documented bound on the nanoseconds is claimed.
#[verifier::external_body]
fn unix_time_now() -> (t: (u64, u32))
    ensures
        t.1 < 1_000_000_000,
{
    let d = std::time::SystemTime::now().duration_since(std::time::UNIX_EPOCH).unwrap_or_default();
    (d.as_secs(), d.subsec_nanos())
}

/// A per-call nonce: a fixed value hashed with a freshly keyed
/// `RandomState` (std documents fresh keys per `RandomState::new`).
/// Nothing is claimed of the value.
#[verifier::external_body]
fn call_nonce() -> (n: u64) {
    std::collections::hash_map::RandomState::new().hash_one(0u8)
}

/// Fresh instance identifier: clock reading plus a nonce.
fn fresh_instance() -> (s: String)
    ensures
        is_instance_text(s@),
{
    let (secs, nanos) = unix_time_now();
    let nonce = call_nonce();
    let mut v = chars_of("disky-");
    let d = decimal_chars(secs);
    append_chars(&mut v, d.as_slice());
    let dash = chars_of("-");
    append_chars(&mut v, dash.as_slice());
    let nd = decimal_chars(nanos as u64);
    let np = zero_pad_chars(nd, 9);
    append_chars(&mut v, np.as_slice());
    append_chars(&mut v, dash.as_slice());
    let cd = decimal_chars(nonce);
    append_chars(&mut v, cd.as_slice());
    proof {
        assert(v@ =~= instance_text(secs, nanos, nonce));
    }
    string_of(v.as_slice())
}

/// Title that the named constructors give each code.
pub open spec fn title_text(c: ExitCode) -> Seq<char> {
    match c {
        ExitCode::NotFound => "snapshot not found"@,
        ExitCode::Io => "i/o error"@,
        ExitCode::LockHeld => "snapshot locked"@,
        _ => "error"@,
    }
}

impl DiskyError {
    /// Error with the given code, title and detail; retryable exactly for
    /// `LockHeld` and `Io`.
    pub fn new(code: ExitCode, title: &'static str, detail: &str) -> (e: Self)
        ensures
            e.code == code,
            e.title@ == title@,
            e.detail@ == detail@,
            e.retryable == is_retryable(code),
            is_instance_text(e.instance@),
    {
        let retryable = match code {
            ExitCode::LockHeld | ExitCode::Io => true,
            _ => false,
        };
        DiskyError {
            code,
            title,
            detail: detail.to_owned(),
            retryable,
            instance: fresh_instance(),
        }
    }

    pub fn not_found(detail: &str) -> (e: Self)
        ensures
            e.code == ExitCode::NotFound,
            e.title@ == title_text(ExitCode::NotFound),
            e.detail@ == detail@,
            !e.retryable,
            is_instance_text(e.instance@),
    {
        Self::new(ExitCode::NotFound, "snapshot not found", detail)
    }

    pub fn io(detail: &str) -> (e: Self)
        ensures
            e.code == ExitCode::Io,
            e.title@ == title_text(ExitCode::Io),
            e.detail@ == detail@,
            e.retryable,
            is_instance_text(e.instance@),
    {
        Self::new(ExitCode::Io, "i/o error", detail)
    }

    pub fn lock_held(detail: &str) -> (e: Self)
        ensures
            e.code == ExitCode::LockHeld,
            e.title@ == title_text(ExitCode::LockHeld),
            e.detail@ == detail@,
            e.retryable,
            is_instance_text(e.instance@),
    {
        Self::new(ExitCode::LockHeld, "snapshot locked", detail)
    }

    pub fn generic(detail: &str) -> (e: Self)
        ensures
            e.code == ExitCode::Generic,
            e.title@ == title_text(ExitCode::Generic),
            e.detail@ == detail@,
            !e.retryable,
            is_instance_text(e.instance@),
    {
        Self::new(ExitCode::Generic, "error", detail)
    }

    /// Display text: `<title>: <detail>`.
    pub fn to_text(&self) -> (s: String)
        ensures
            s@ == self.title@ + ": "@ + self.detail@,
    {
        let mut s = String::from_str(self.title);
        s.append(": ");
        s.append(self.detail.as_str());
        s
    }
}

/// What kind of I/O failure an error carries, when it carries one.
#[derive(Debug, Clone, Copy, PartialEq, Eq, Structural)]
pub enum IoKind {
    NotFound,
    PermissionDenied,
    Other,
}

/// What `str::to_lowercase` returns for a string.
pub uninterp spec fn lowercase(s: Seq<char>) -> Seq<char>;

/// `str::to_lowercase` (Unicode lower-casing); its result is named, not spelled out.
#[verifier::external_body]
pub(crate) fn to_lowercase(s: &str) -> (r: String)
    ensures
        r@ == lowercase(s@),
{
    s.to_lowercase()
}

/// Code chosen from an (already lower-cased) error message.
pub open spec fn message_code(lower: Seq<char>) -> ExitCode {
    if contains(lower, "could not set lock"@) || contains(lower, "database is locked"@)
        || contains(lower, "conflicting lock"@) {
        ExitCode::LockHeld
    } else if contains(lower, "no such file"@) || contains(lower, "not found"@) {
        ExitCode::NotFound
    } else if contains(lower, "permission denied"@) || contains(lower, "read-only file system"@)
        || contains(lower, "cannot open file"@) || contains(lower, "io error"@) {
        ExitCode::Io
    } else {
        ExitCode::Generic
    }
}

/// Code for an error: an I/O kind decides alone; otherwise the message does.
pub open spec fn classified_code(io: Option<IoKind>, msg: Seq<char>) -> ExitCode {
    match io {
        Some(IoKind::NotFound) => ExitCode::NotFound,
        Some(_) => ExitCode::Io,
        None => message_code(lowercase(msg)),
    }
}

fn lower_has(lower: &[char], phrase: &str) -> (b: bool)
    ensures
        b == contains(lower@, phrase@),
{
    let p = chars_of(phrase);
    contains_chars(lower, p.as_slice())
}

/// Classifies an error from its I/O kind (if any) and its full message.
pub fn classify_parts(io: Option<IoKind>, msg: &str) -> (e: DiskyError)
    ensures
        e.code == classified_code(io, msg@),
        e.title@ == title_text(e.code),
        e.detail@ == msg@,
        e.retryable == is_retryable(e.code),
        is_instance_text(e.instance@),
{
    match io {
        Some(IoKind::NotFound) => {
            return DiskyError::not_found(msg);
        },
        Some(_) => {
            return DiskyError::io(msg);
        },
        None => {},
    }
    let lower_s = to_lowercase(msg);
    let lower = chars_of(lower_s.as_str());
    let l = lower.as_slice();
    if lower_has(l, "could not set lock") || lower_has(l, "database is locked") || lower_has(
        l,
        "conflicting lock",
    ) {
        DiskyError::lock_held(msg)
    } else if lower_has(l, "no such file") || lower_has(l, "not found") {
        DiskyError::not_found(msg)
    } else if lower_has(l, "permission denied") || lower_has(l, "read-only file system")
        || lower_has(l, "cannot open file") || lower_has(l, "io error") {
        DiskyError::io(msg)
    } else {
        DiskyError::generic(msg)
    }
}

#[verifier::external_type_specification]
#[verifier::external_body]
pub struct ExAnyhowError(anyhow::Error);

/// `format!("{:#}", err)`: the error and its causes as `anyhow` renders
/// them, joined by ": ". Nothing is claimed of the text, because it is not
/// a function of the error value alone: a `std::io::Error` made from an OS
/// error code holds only the code, and its message is looked up when it is
/// rendered, in the message table of the C library the program runs on
/// (under that library's locale), which differs from system to system.
#[verifier::external_body]
fn chain_message(err: &anyhow::Error) -> (s: String) {
    format!("{:#}", err)
}

/// The kind of the `std::io::Error` an error wraps, if it wraps one.
pub uninterp spec fn io_kind_name(err: anyhow::Error) -> Option<IoKind>;

/// `anyhow::Error::downcast_ref::<std::io::Error>()`, reduced to the I/O
/// error's kind; the answer is named.
#[verifier::external_body]
fn io_kind_of(err: &anyhow::Error) -> (k: Option<IoKind>)
    ensures
        k == io_kind_name(*err),
{
    match err.downcast_ref::<std::io::Error>() {
        Some(io) => match io.kind() {
            std::io::ErrorKind::NotFound => Some(IoKind::NotFound),
            std::io::ErrorKind::PermissionDenied => Some(IoKind::PermissionDenied),
            _ => Some(IoKind::Other),
        },
        None => None,
    }
}

/// Classifies an `anyhow::Error` into a `DiskyError`: the code comes from
/// the wrapped I/O error's kind when there is one, else from the message.
/// The detail is the rendered chain (`chain_message`), and the code is the
/// one `classify_parts` gives for that detail; the rendered text itself is
/// left unstated (see `chain_message`).
pub fn classify(err: anyhow::Error) -> (e: DiskyError)
    ensures
        e.code == classified_code(io_kind_name(err), e.detail@),
        e.title@ == title_text(e.code),
        e.retryable == is_retryable(e.code),
        is_instance_text(e.instance@),
{
    let msg = chain_message(&err);
    let io = io_kind_of(&err);
    classify_parts(io, msg.as_str())
}

/// How an error's code is chosen. An I/O error decides by its kind alone:
/// not-found gives `NotFound`, any other kind `Io`. Otherwise the
/// lower-cased message decides, the first matching group winning: a lock
/// phrase ("could not set lock", "database is locked", "conflicting lock")
/// gives `LockHeld`; then "no such file" or "not found" gives `NotFound`;
/// then "permission denied", "read-only file system", "cannot open file" or
/// "io error" gives `Io`; anything else is `Generic`.
pub proof fn law_error_codes_by_kind_and_message(kind: IoKind, msg: Seq<char>)
    ensures
        classified_code(Some(kind), msg) == (if kind == IoKind::NotFound {
            ExitCode::NotFound
        } else {
            ExitCode::Io
        }),
        ({
            let l = lowercase(msg);
            let lock = contains(l, "could not set lock"@) || contains(l, "database is locked"@) || contains(
                l,
                "conflicting lock"@,
            );
            let missing = contains(l, "no such file"@) || contains(l, "not found"@);
            let io = contains(l, "permission denied"@) || contains(l, "read-only file system"@) || contains(
                l,
                "cannot open file"@,
            ) || contains(l, "io error"@);
            &&& (classified_code(None, msg) == ExitCode::LockHeld <==> lock)
            &&& (classified_code(None, msg) == ExitCode::NotFound <==> !lock && missing)
            &&& (classified_code(None, msg) == ExitCode::Io <==> !lock && !missing && io)
            &&& (classified_code(None, msg) == ExitCode::Generic <==> !lock && !missing && !io)
        }),
{
}

} // verus!
