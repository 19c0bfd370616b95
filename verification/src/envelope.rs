//! Reading a disky JSON envelope (`{schema_version, kind, records}`) back
//! in: commands that consume earlier output check the schema version and
//! the record kind before touching the records.

use vstd::prelude::*;
use vstd::string::*;

use crate::query::SCHEMA_VERSION;
use crate::text::{append_chars, chars_of, decimal, decimal_chars, string_of, trim, trim_chars};

verus! {

#[verifier::external_type_specification]
#[verifier::external_body]
pub struct ExJsonValue(serde_json::Value);

/// A parsed envelope; records are carried through as JSON values.
#[derive(Debug, Clone)]
pub struct Envelope {
    pub schema_version: u32,
    pub kind: String,
    pub records: Vec<serde_json::Value>,
}

/// Why an envelope was rejected.
#[derive(Debug, Clone, PartialEq, Eq)]
pub enum EnvelopeError {
    /// The input is not JSON; carries the parser's message.
    NotJson(String),
    NotObject,
    MissingSchemaVersion,
    /// A schema version other than this build's; carries the version read.
    Incompatible(u32),
    MissingKind,
    /// The kind is not among those accepted; carries the kind and the list.
    KindNotAccepted(String, Vec<String>),
}

/// The JSON value `serde_json` reads from a text, if it reads one.
pub uninterp spec fn json_text_value(text: Seq<char>) -> Option<serde_json::Value>;

/// `serde_json::from_str::<Value>`; the error becomes its message. The
/// value read is named, not spelled out; the message is not stated.
#[verifier::external_body]
fn json_from_str(text: &str) -> (r: Result<serde_json::Value, String>)
    ensures
        match (r, json_text_value(text@)) {
            (Ok(v), Some(w)) => v == w,
            (Err(_), None) => true,
            _ => false,
        },
{
    match serde_json::from_str::<serde_json::Value>(text) {
        Ok(v) => Ok(v),
        Err(e) => Err(e.to_string()),
    }
}

/// Whether a JSON value is an object (`Value::is_object`).
pub uninterp spec fn value_is_object(v: serde_json::Value) -> bool;

/// `Value::is_object`; the answer is named.
#[verifier::external_body]
fn json_is_object(v: &serde_json::Value) -> (b: bool)
    ensures
        b == value_is_object(*v),
{
    v.is_object()
}

/// The unsigned integer a JSON value holds under a key, if it holds one.
pub uninterp spec fn value_u64_field(v: serde_json::Value, key: Seq<char>) -> Option<u64>;

/// `v.get(key).and_then(Value::as_u64)`; the answer is named.
#[verifier::external_body]
fn json_u64_field(v: &serde_json::Value, key: &str) -> (r: Option<u64>)
    ensures
        r == value_u64_field(*v, key@),
{
    match v.get(key) {
        Some(f) => f.as_u64(),
        None => None,
    }
}

/// The string a JSON value holds under a key, if it holds one.
pub uninterp spec fn value_str_field(v: serde_json::Value, key: Seq<char>) -> Option<Seq<char>>;

/// `v.get(key).and_then(Value::as_str)`, owned; the answer is named.
#[verifier::external_body]
fn json_str_field(v: &serde_json::Value, key: &str) -> (r: Option<String>)
    ensures
        match (r, value_str_field(*v, key@)) {
            (Some(s), Some(t)) => s@ == t,
            (None, None) => true,
            _ => false,
        },
{
    match v.get(key) {
        Some(f) => match f.as_str() {
            Some(s) => Some(s.to_owned()),
            None => None,
        },
        None => None,
    }
}

/// The array a JSON value holds under a key, if it holds one.
pub uninterp spec fn value_array_field(v: serde_json::Value, key: Seq<char>) -> Option<Seq<serde_json::Value>>;

/// `v.get(key).and_then(Value::as_array)`, cloned; the answer is named.
#[verifier::external_body]
fn json_array_field(v: &serde_json::Value, key: &str) -> (r: Option<Vec<serde_json::Value>>)
    ensures
        match (r, value_array_field(*v, key@)) {
            (Some(a), Some(t)) => a@ == t,
            (None, None) => true,
            _ => false,
        },
{
    match v.get(key) {
        Some(f) => match f.as_array() {
            Some(a) => Some(a.clone()),
            None => None,
        },
        None => None,
    }
}

/// `r` is what an envelope read from the JSON value `v` comes to: the
/// outcome of its object-ness, `schema_version` and `kind`, with its
/// `records` array (none when absent).
pub open spec fn envelope_of_value(v: serde_json::Value, r: Result<Envelope, EnvelopeError>) -> bool {
    match (
        envelope_outcome(value_is_object(v), value_u64_field(v, "schema_version"@), value_str_field(v, "kind"@)),
        r,
    ) {
        (Ok((sv, k)), Ok(e)) => {
            &&& e.schema_version == sv
            &&& e.kind@ == k
            &&& e.records@ == match value_array_field(v, "records"@) {
                Some(rs) => rs,
                None => Seq::<serde_json::Value>::empty(),
            }
        },
        (Err(se), Err(e)) => e == se,
        _ => false,
    }
}

/// `items` joined with `", "`.
pub open spec fn joined(items: Seq<Seq<char>>) -> Seq<char>
    decreases items.len(),
{
    if items.len() == 0 {
        Seq::empty()
    } else if items.len() == 1 {
        items[0]
    } else {
        joined(items.drop_last()) + ", "@ + items.last()
    }
}

/// The message of an envelope error.
pub open spec fn error_text(e: EnvelopeError) -> Seq<char> {
    match e {
        EnvelopeError::NotJson(m) => "stdin is not valid JSON: "@ + m@,
        EnvelopeError::NotObject => "envelope must be a JSON object"@,
        EnvelopeError::MissingSchemaVersion => "missing 'schema_version' (u32)"@,
        EnvelopeError::Incompatible(v) => "envelope schema_version="@ + decimal(v as nat) + " is incompatible (expected "@
            + decimal(SCHEMA_VERSION as nat) + ")"@,
        EnvelopeError::MissingKind => "missing 'kind' (string)"@,
        EnvelopeError::KindNotAccepted(k, list) => "envelope kind '"@ + k@ + "' not accepted here (expected one of: "@
            + joined(list@.map_values(|s: String| s@)) + ")"@,
    }
}

impl EnvelopeError {
    /// Human-readable message.
    pub fn to_text(&self) -> (s: String)
        ensures
            s@ == error_text(*self),
    {
        let mut v: Vec<char> = Vec::new();
        match self {
            EnvelopeError::NotJson(m) => {
                let a = chars_of("stdin is not valid JSON: ");
                append_chars(&mut v, a.as_slice());
                let b = chars_of(m.as_str());
                append_chars(&mut v, b.as_slice());
            },
            EnvelopeError::NotObject => {
                let a = chars_of("envelope must be a JSON object");
                append_chars(&mut v, a.as_slice());
            },
            EnvelopeError::MissingSchemaVersion => {
                let a = chars_of("missing 'schema_version' (u32)");
                append_chars(&mut v, a.as_slice());
            },
            EnvelopeError::Incompatible(n) => {
                let a = chars_of("envelope schema_version=");
                append_chars(&mut v, a.as_slice());
                let d = decimal_chars(*n as u64);
                append_chars(&mut v, d.as_slice());
                let b = chars_of(" is incompatible (expected ");
                append_chars(&mut v, b.as_slice());
                let e = decimal_chars(SCHEMA_VERSION as u64);
                append_chars(&mut v, e.as_slice());
                let c = chars_of(")");
                append_chars(&mut v, c.as_slice());
            },
            EnvelopeError::MissingKind => {
                let a = chars_of("missing 'kind' (string)");
                append_chars(&mut v, a.as_slice());
            },
            EnvelopeError::KindNotAccepted(k, list) => {
                let a = chars_of("envelope kind '");
                append_chars(&mut v, a.as_slice());
                let b = chars_of(k.as_str());
                append_chars(&mut v, b.as_slice());
                let c = chars_of("' not accepted here (expected one of: ");
                append_chars(&mut v, c.as_slice());
                let ghost start = v@;
                let mut i: usize = 0;
                while i < list.len()
                    invariant
                        i <= list@.len(),
                        v@ == start + joined(list@.map_values(|s: String| s@).subrange(0, i as int)),
                    decreases list.len() - i,
                {
                    let ghost pre = list@.map_values(|s: String| s@).subrange(0, i as int);
                    let ghost nxt = list@.map_values(|s: String| s@).subrange(0, i + 1);
                    assert(nxt.drop_last() =~= pre);
                    assert(nxt.last() == list@[i as int]@);
                    if i > 0 {
                        let sep = chars_of(", ");
                        append_chars(&mut v, sep.as_slice());
                    }
                    let item = chars_of(list[i].as_str());
                    append_chars(&mut v, item.as_slice());
                    proof {
                        if i == 0 {
                            assert(pre =~= Seq::<Seq<char>>::empty());
                            assert(nxt.len() == 1);
                            assert(v@ =~= start + joined(nxt));
                        } else {
                            assert(v@ =~= start + joined(nxt));
                        }
                    }
                    i = i + 1;
                }
                assert(list@.map_values(|s: String| s@).subrange(0, i as int) =~= list@.map_values(|s: String| s@));
                let d = chars_of(")");
                append_chars(&mut v, d.as_slice());
            },
        }
        proof {
            assert(v@ =~= error_text(*self));
        }
        string_of(v.as_slice())
    }
}

/// The envelope a JSON value's parts make: it must be an object with a
/// `schema_version` (an unsigned integer, read as `u32`) equal to this
/// build's, and a string `kind`; missing `records` read as none.
pub open spec fn envelope_outcome(
    is_object: bool,
    version: Option<u64>,
    kind: Option<Seq<char>>,
) -> Result<(u32, Seq<char>), EnvelopeError> {
    if !is_object {
        Err(EnvelopeError::NotObject)
    } else {
        match version {
            None => Err(EnvelopeError::MissingSchemaVersion),
            Some(v) => if v as u32 != SCHEMA_VERSION {
                Err(EnvelopeError::Incompatible(v as u32))
            } else {
                match kind {
                    None => Err(EnvelopeError::MissingKind),
                    Some(k) => Ok((v as u32, k)),
                }
            },
        }
    }
}

/// Builds an envelope from what was read of a JSON value.
pub fn envelope_from_parts(
    is_object: bool,
    version: Option<u64>,
    kind: Option<String>,
    records: Option<Vec<serde_json::Value>>,
) -> (r: Result<Envelope, EnvelopeError>)
    ensures
        match (
            r,
            envelope_outcome(
                is_object,
                version,
                match kind {
                    Some(k) => Some(k@),
                    None => None,
                },
            ),
        ) {
            (Ok(e), Ok((v, k))) => {
                &&& e.schema_version == v
                &&& e.kind@ == k
                &&& e.records@ == match records {
                    Some(rs) => rs@,
                    None => Seq::<serde_json::Value>::empty(),
                }
            },
            (Err(e), Err(se)) => e == se,
            _ => false,
        },
{
    if !is_object {
        return Err(EnvelopeError::NotObject);
    }
    let v = match version {
        Some(v) => v as u32,
        None => {
            return Err(EnvelopeError::MissingSchemaVersion);
        },
    };
    if v != SCHEMA_VERSION {
        return Err(EnvelopeError::Incompatible(v));
    }
    let kind = match kind {
        Some(k) => k,
        None => {
            return Err(EnvelopeError::MissingKind);
        },
    };
    let records = match records {
        Some(rs) => rs,
        None => Vec::new(),
    };
    Ok(Envelope { schema_version: v, kind, records })
}

/// Reads an envelope from a JSON value.
pub fn parse_value(v: serde_json::Value) -> (r: Result<Envelope, EnvelopeError>)
    ensures
        envelope_of_value(v, r),
{
    let is_object = json_is_object(&v);
    let version = if is_object { json_u64_field(&v, "schema_version") } else { None };
    let kind = if is_object { json_str_field(&v, "kind") } else { None };
    let records = if is_object { json_array_field(&v, "records") } else { None };
    envelope_from_parts(is_object, version, kind, records)
}

/// Reads an envelope from JSON text (surrounding whitespace ignored).
pub fn parse_text(text: &str) -> (r: Result<Envelope, EnvelopeError>)
    ensures
        match json_text_value(trim(text@)) {
            None => r matches Err(EnvelopeError::NotJson(_)),
            Some(v) => envelope_of_value(v, r),
        },
{
    let all = chars_of(text);
    let t = string_of(trim_chars(all.as_slice()).as_slice());
    match json_from_str(t.as_str()) {
        Ok(v) => parse_value(v),
        Err(msg) => Err(EnvelopeError::NotJson(msg)),
    }
}

/// Accepts an envelope only when its kind is in `allowed`.
pub fn require_kind(env: &Envelope, allowed: &[&str]) -> (r: Result<(), EnvelopeError>)
    ensures
        match r {
            Ok(()) => exists|i: int| 0 <= i < allowed@.len() && (#[trigger] allowed@[i])@ == env.kind@,
            Err(e) => {
                &&& forall|i: int| 0 <= i < allowed@.len() ==> (#[trigger] allowed@[i])@ != env.kind@
                &&& e matches EnvelopeError::KindNotAccepted(k, list) && k@ == env.kind@ && list@.len()
                    == allowed@.len() && forall|i: int| 0 <= i < allowed@.len() ==> #[trigger] list@[i]@ == allowed@[i]@
            },
        },
{
    let want = chars_of(env.kind.as_str());
    let mut i: usize = 0;
    while i < allowed.len()
        invariant
            i <= allowed@.len(),
            want@ == env.kind@,
            forall|j: int| 0 <= j < i ==> (#[trigger] allowed@[j])@ != env.kind@,
        decreases allowed.len() - i,
    {
        let a = chars_of(allowed[i]);
        if crate::text::chars_eq(a.as_slice(), want.as_slice()) {
            return Ok(());
        }
        i = i + 1;
    }
    let mut list: Vec<String> = Vec::new();
    let mut j: usize = 0;
    while j < allowed.len()
        invariant
            j <= allowed@.len(),
            list@.len() == j,
            forall|k: int| 0 <= k < j ==> #[trigger] list@[k]@ == allowed@[k]@,
        decreases allowed.len() - j,
    {
        list.push(allowed[j].to_owned());
        j = j + 1;
    }
    Err(EnvelopeError::KindNotAccepted(env.kind.clone(), list))
}

/// An accepted envelope always carries this build's schema version, and
/// a readable object with another version is always refused as
/// incompatible.
pub proof fn law_only_current_schema_accepted(is_object: bool, version: Option<u64>, kind: Option<Seq<char>>)
    ensures
        envelope_outcome(is_object, version, kind) matches Ok((v, _)) ==> v == SCHEMA_VERSION,
        is_object ==> (version matches Some(v) ==> (v as u32 != SCHEMA_VERSION ==> envelope_outcome(
            is_object,
            version,
            kind,
        ) == Err::<(u32, Seq<char>), EnvelopeError>(EnvelopeError::Incompatible(v as u32)))),
{
}

} // verus!
