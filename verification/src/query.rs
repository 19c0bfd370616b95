//! Record shapes returned by snapshot queries, and the pure parts of
//! building them: timestamps in RFC 3339, diff and growth classification,
//! the scan metadata folded into `stats`, and the SQL text (quoted
//! literals, `LIKE` patterns from globs) that the queries embed.

use vstd::prelude::*;
use vstd::string::*;

use crate::db::ScanMeta;
use crate::text::{chars_of, string_of};

verus! {

/// Version of every JSON / NDJSON payload; bumped on breaking changes to
/// record shapes.
pub const SCHEMA_VERSION: u32 = 1;

#[derive(Debug, Clone)]
pub struct FileRow {
    pub path: String,
    pub size: u64,
    pub ext: Option<String>,
    /// Modification time, RFC 3339 UTC.
    pub mtime: Option<String>,
}

#[derive(Debug, Clone)]
pub struct ExtRow {
    pub ext: String,
    pub files: u64,
    pub total_size: u64,
}

#[derive(Debug, Clone)]
pub struct DirRow {
    pub path: String,
    pub total_size: u64,
}

#[derive(Debug, Clone)]
pub struct Stats {
    pub files: u64,
    pub dirs: u64,
    pub total_bytes: u64,
    pub largest_bytes: u64,
    pub avg_bytes: u64,
    /// The snapshot's scan was cancelled before completing.
    pub partial: bool,
    pub scan_root: Option<String>,
    pub scan_duration_s: Option<i64>,
    pub scanned_at: Option<String>,
}

/// One file that differs between two snapshots.
#[derive(Debug, Clone)]
pub struct DiffRow {
    pub path: String,
    /// `"added"`, `"removed"`, `"grew"` or `"shrank"`.
    pub kind: &'static str,
    pub size_a: u64,
    pub size_b: u64,
    pub delta: i64,
}

/// What `chrono` renders for a Unix time: RFC 3339, UTC, whole seconds,
/// `Z` suffix; `None` outside chrono's range.
pub uninterp spec fn rfc3339_text(secs: i64) -> Option<Seq<char>>;

/// `DateTime::<Utc>::from_timestamp(secs, 0)` rendered with
/// `to_rfc3339_opts(SecondsFormat::Secs, true)`; the text is named, not
/// spelled out.
#[verifier::external_body]
fn rfc3339_utc(secs: i64) -> (r: Option<String>)
    ensures
        match (r, rfc3339_text(secs)) {
            (Some(s), Some(t)) => s@ == t,
            (None, None) => true,
            _ => false,
        },
{
    match chrono::DateTime::<chrono::Utc>::from_timestamp(secs, 0) {
        Some(dt) => Some(dt.to_rfc3339_opts(chrono::SecondsFormat::Secs, true)),
        None => None,
    }
}

pub open spec fn opt_text(o: Option<String>) -> Option<Seq<char>> {
    match o {
        Some(s) => Some(s@),
        None => None,
    }
}

/// RFC 3339 text of an optional Unix time.
pub fn rfc3339(mtime: Option<i64>) -> (r: Option<String>)
    ensures
        opt_text(r) == match mtime {
            Some(secs) => rfc3339_text(secs),
            None => None,
        },
{
    match mtime {
        Some(secs) => rfc3339_utc(secs),
        None => None,
    }
}

/// A file row from its stored columns; the modification time is rendered
/// in RFC 3339.
pub fn file_row(path: String, size: u64, ext: Option<String>, mtime: Option<i64>) -> (r: FileRow)
    ensures
        r.path == path,
        r.size == size,
        r.ext == ext,
        opt_text(r.mtime) == match mtime {
            Some(secs) => rfc3339_text(secs),
            None => None,
        },
{
    FileRow { path, size, ext, mtime: rfc3339(mtime) }
}

/// Classification of a file between two snapshots: `added` when only the
/// second holds it, `removed` when only the first does, else by the sign
/// of the change.
pub open spec fn diff_kind(in_a: bool, in_b: bool, delta: i64) -> Seq<char> {
    if !in_a {
        "added"@
    } else if !in_b {
        "removed"@
    } else if delta > 0 {
        "grew"@
    } else {
        "shrank"@
    }
}

/// A diff row from the joined sizes of a path in both snapshots (a size
/// absent on one side reads as 0) and which snapshots hold the path.
pub fn diff_row(path: String, size_a: i64, size_b: i64, delta: i64, in_a: bool, in_b: bool) -> (r: DiffRow)
    ensures
        r.path == path,
        r.kind@ == diff_kind(in_a, in_b, delta),
        r.size_a == size_a as u64,
        r.size_b == size_b as u64,
        r.delta == delta,
{
    let kind = if !in_a {
        "added"
    } else if !in_b {
        "removed"
    } else if delta > 0 {
        "grew"
    } else {
        "shrank"
    };
    DiffRow { path, kind, size_a: size_a as u64, size_b: size_b as u64, delta }
}

/// Classification of a directory between two snapshots.
pub open spec fn growth_kind(size_a: i64, size_b: i64, delta: i64) -> Seq<char> {
    if size_a == 0 {
        "added"@
    } else if size_b == 0 {
        "removed"@
    } else if delta > 0 {
        "grew"@
    } else {
        "shrank"@
    }
}

pub fn growth_kind_of(size_a: i64, size_b: i64, delta: i64) -> (k: &'static str)
    ensures
        k@ == growth_kind(size_a, size_b, delta),
{
    if size_a == 0 {
        "added"
    } else if size_b == 0 {
        "removed"
    } else if delta > 0 {
        "grew"
    } else {
        "shrank"
    }
}

/// A stored size, negative values read as 0.
pub fn clamp_size(v: i64) -> (r: u64)
    ensures
        r == if v > 0 { v as int } else { 0 },
{
    if v > 0 {
        v as u64
    } else {
        0
    }
}

/// Stats with the snapshot's scan metadata folded in: partial when the
/// scan did not complete, its root, duration and start time.
pub fn stats_with_meta(s: Stats, meta: Option<ScanMeta>) -> (r: Stats)
    requires
        meta matches Some(m) ==> (m.ended_at matches Some(e) ==> i64::MIN <= e - m.started_at <= i64::MAX),
    ensures
        r.files == s.files,
        r.dirs == s.dirs,
        r.total_bytes == s.total_bytes,
        r.largest_bytes == s.largest_bytes,
        r.avg_bytes == s.avg_bytes,
        match meta {
            Some(m) => {
                &&& r.partial == !m.completed
                &&& r.scan_root == Some(m.root)
                &&& r.scan_duration_s == match m.ended_at {
                    Some(e) => Some(if e - m.started_at > 0 { (e - m.started_at) as i64 } else { 0i64 }),
                    None => None::<i64>,
                }
                &&& opt_text(r.scanned_at) == rfc3339_text(m.started_at)
            },
            None => r.partial == s.partial && r.scan_root == s.scan_root && r.scan_duration_s == s.scan_duration_s
                && r.scanned_at == s.scanned_at,
        },
{
    match meta {
        Some(m) => {
            let d = m.duration_secs();
            let at = rfc3339(Some(m.started_at));
            Stats {
                files: s.files,
                dirs: s.dirs,
                total_bytes: s.total_bytes,
                largest_bytes: s.largest_bytes,
                avg_bytes: s.avg_bytes,
                partial: !m.completed,
                scan_root: Some(m.root),
                scan_duration_s: d,
                scanned_at: at,
            }
        },
        None => s,
    }
}

/// The `LIKE` character that a glob character stands for.
pub open spec fn glob_char(c: char) -> char {
    if c == '*' {
        '%'
    } else if c == '?' {
        '_'
    } else {
        c
    }
}

/// A glob over file names as a SQL `LIKE` pattern: `*` becomes `%` and `?`
/// becomes `_`.
pub fn like_pattern(glob: &str) -> (p: String)
    ensures
        p@ == glob@.map_values(|c: char| glob_char(c)),
{
    let g = chars_of(glob);
    let mut out: Vec<char> = Vec::new();
    let mut i: usize = 0;
    while i < g.len()
        invariant
            i <= g@.len(),
            out@ == g@.subrange(0, i as int).map_values(|c: char| glob_char(c)),
        decreases g.len() - i,
    {
        let c = g[i];
        let d = if c == '*' {
            '%'
        } else if c == '?' {
            '_'
        } else {
            c
        };
        out.push(d);
        i = i + 1;
        assert(out@ =~= g@.subrange(0, i as int).map_values(|c: char| glob_char(c)));
    }
    assert(g@.subrange(0, g@.len() as int) =~= g@);
    string_of(out.as_slice())
}

/// The body of a single-quoted SQL string literal: every `'` doubled.
pub open spec fn quote_doubled(s: Seq<char>) -> Seq<char>
    decreases s.len(),
{
    if s.len() == 0 {
        Seq::empty()
    } else if s[0] == '\'' {
        seq!['\'', '\''] + quote_doubled(s.drop_first())
    } else {
        seq![s[0]] + quote_doubled(s.drop_first())
    }
}

/// What SQL reads back from the body of a single-quoted literal: a doubled
/// `'` stands for one.
pub open spec fn quote_read(t: Seq<char>) -> Seq<char>
    decreases t.len(),
{
    if t.len() == 0 {
        Seq::empty()
    } else if t.len() >= 2 && t[0] == '\'' && t[1] == '\'' {
        seq!['\''] + quote_read(t.subrange(2, t.len() as int))
    } else {
        seq![t[0]] + quote_read(t.drop_first())
    }
}

proof fn lemma_quote_doubled_push(s: Seq<char>, c: char)
    ensures
        quote_doubled(s.push(c)) == quote_doubled(s) + (if c == '\'' {
            seq!['\'', '\'']
        } else {
            seq![c]
        }),
    decreases s.len(),
{
    if s.len() == 0 {
        assert(s.push(c).drop_first() =~= Seq::<char>::empty());
        assert(quote_doubled(Seq::<char>::empty()) =~= Seq::<char>::empty());
    } else {
        assert(s.push(c).drop_first() =~= s.drop_first().push(c));
        lemma_quote_doubled_push(s.drop_first(), c);
    }
}

/// `s` as a single-quoted SQL string literal, for the `ATTACH` statements
/// that open snapshots side by side.
pub fn sql_literal(s: &str) -> (lit: String)
    ensures
        lit@ == seq!['\''] + quote_doubled(s@) + seq!['\''],
{
    let v = chars_of(s);
    let mut out: Vec<char> = Vec::new();
    out.push('\'');
    let mut i: usize = 0;
    while i < v.len()
        invariant
            i <= v@.len(),
            out@ == seq!['\''] + quote_doubled(v@.subrange(0, i as int)),
        decreases v.len() - i,
    {
        let c = v[i];
        proof {
            lemma_quote_doubled_push(v@.subrange(0, i as int), c);
            assert(v@.subrange(0, i + 1) =~= v@.subrange(0, i as int).push(c));
        }
        if c == '\'' {
            out.push('\'');
            out.push('\'');
        } else {
            out.push(c);
        }
        i = i + 1;
        assert(out@ =~= seq!['\''] + quote_doubled(v@.subrange(0, i as int)));
    }
    assert(v@.subrange(0, v@.len() as int) =~= v@);
    out.push('\'');
    string_of(out.as_slice())
}

/// SQL reads back exactly the text that was quoted.
pub proof fn law_sql_literal_reads_back(s: Seq<char>)
    ensures
        quote_read(quote_doubled(s)) == s,
    decreases s.len(),
{
    if s.len() > 0 {
        law_sql_literal_reads_back(s.drop_first());
        let rest = quote_doubled(s.drop_first());
        if s[0] == '\'' {
            let t = seq!['\'', '\''] + rest;
            assert(t.subrange(2, t.len() as int) =~= rest);
            assert(seq!['\''] + s.drop_first() =~= s);
        } else {
            let t = seq![s[0]] + rest;
            assert(t.drop_first() =~= rest);
            assert(seq![s[0]] + s.drop_first() =~= s);
        }
    } else {
        assert(quote_doubled(s) =~= Seq::<char>::empty());
    }
}

} // verus!
