//! Snapshot identifiers: `YYYY-MM-DD_HH-MM` file stems, their local
//! wall-clock reading, the snapshots of the data directory in name order,
//! and how a user's snapshot spec (`@latest`, `@latest~N`, an id or a
//! path) resolves against them.

use vstd::prelude::*;
use vstd::string::*;
use chrono::{Datelike, TimeZone, Timelike};

use crate::duration::{lemma_digits_value_nonneg, parse_digits};
use crate::scan::{find_last, last_index_of, lemma_last_index_in_range};
use crate::text::{all_digits, chars_of, string_of, digits_value, ends_with, ends_with_chars, is_digit, slice_range, starts_with, starts_with_chars, lemma_lex_asymmetric, lemma_lex_irreflexive, lemma_lex_transitive, lex_less, lex_lt};
use vstd::seq_lib::{to_multiset_build, to_multiset_contains, to_multiset_insert, to_multiset_len};

verus! {

/// Wall-clock fields of a snapshot id, with the ISO week of its date.
#[derive(Debug, Clone, Copy, PartialEq, Eq, Structural)]
pub struct LocalStamp {
    pub year: i32,
    pub month: u32,
    pub day: u32,
    pub hour: u32,
    pub minute: u32,
    pub iso_year: i32,
    pub iso_week: u32,
}

/// A snapshot's reading: its wall-clock fields and the Unix time they
/// denote in the machine's time zone.
#[derive(Debug, Clone, Copy, PartialEq, Eq, Structural)]
pub struct SnapshotTime {
    pub stamp: LocalStamp,
    pub instant: i64,
}

/// What `NaiveDateTime::parse_from_str(id, "%Y-%m-%d_%H-%M")` reads from an id.
pub uninterp spec fn id_stamp(id: Seq<char>) -> Option<LocalStamp>;

/// `chrono::NaiveDateTime::parse_from_str` with the snapshot-id format,
/// reduced to the parsed fields; the result is named, not spelled out.
#[verifier::external_body]
fn parse_stamp(id: &str) -> (r: Option<LocalStamp>)
    ensures
        r == id_stamp(id@),
{
    match chrono::NaiveDateTime::parse_from_str(id, "%Y-%m-%d_%H-%M") {
        Ok(n) => Some(LocalStamp {
            year: n.year(),
            month: n.month(),
            day: n.day(),
            hour: n.hour(),
            minute: n.minute(),
            iso_year: n.iso_week().year(),
            iso_week: n.iso_week().week(),
        }),
        Err(_) => None,
    }
}

/// `chrono::Local.from_local_datetime(..).single()` on the stamp's
/// wall-clock time, as a Unix timestamp. The answer depends on the
/// machine's time zone (a skipped or repeated local time gives `None`),
/// so nothing is claimed of it.
#[verifier::external_body]
fn local_instant(s: LocalStamp) -> (t: Option<i64>) {
    match chrono::NaiveDate::from_ymd_opt(s.year, s.month, s.day) {
        Some(d) => match d.and_hms_opt(s.hour, s.minute, 0) {
            Some(n) => match chrono::Local.from_local_datetime(&n).single() {
                Some(dt) => Some(dt.timestamp()),
                None => None,
            },
            None => None,
        },
        None => None,
    }
}

/// Reads a snapshot id such as `2026-05-15_11-56` as a local time.
/// `None` for ids outside the canonical format (user-renamed files); a
/// canonical id whose wall-clock time the time zone skips or repeats may
/// also read as `None`.
pub fn parse_id(id: &str) -> (r: Option<SnapshotTime>)
    ensures
        id_stamp(id@) is None ==> r is None,
        r matches Some(t) ==> id_stamp(id@) == Some(t.stamp),
{
    match parse_stamp(id) {
        None => None,
        Some(stamp) => snapshot_time(stamp, local_instant(stamp)),
    }
}

/// The reading of a snapshot id from its wall-clock fields and what the
/// time zone makes of them (`None` when it skips or repeats that time).
pub fn snapshot_time(stamp: LocalStamp, instant: Option<i64>) -> (r: Option<SnapshotTime>)
    ensures
        r == match instant {
            Some(t) => Some(SnapshotTime { stamp, instant: t }),
            None => None::<SnapshotTime>,
        },
{
    match instant {
        Some(t) => Some(SnapshotTime { stamp, instant: t }),
        None => None,
    }
}

/// Start of the path segment that ends at `k`: just after the last `/`
/// before `k`, or 0.
pub open spec fn segment_start(p: Seq<char>, k: int) -> int
    decreases k,
{
    if k <= 0 || k > p.len() {
        0
    } else if p[k - 1] == '/' {
        k
    } else {
        segment_start(p, k - 1)
    }
}

proof fn lemma_segment_start(p: Seq<char>, k: int)
    requires
        0 <= k <= p.len(),
    ensures
        0 <= segment_start(p, k) <= k,
        segment_start(p, k) > 0 ==> p[segment_start(p, k) - 1] == '/',
        forall|i: int| segment_start(p, k) <= i < k ==> p[i] != '/',
    decreases k,
{
    if k > 0 && p[k - 1] != '/' {
        lemma_segment_start(p, k - 1);
    }
}

/// File name of `p[..k]` as `Path::file_name` reads it: the last segment
/// that is neither empty nor `.`, unless that segment is `..`.
pub open spec fn file_name_upto(p: Seq<char>, k: int) -> Option<Seq<char>>
    decreases k,
{
    if k <= 0 || k > p.len() {
        None
    } else {
        let st = segment_start(p, k);
        let seg = p.subrange(st, k);
        if seg.len() == 0 || seg == seq!['.'] {
            if 0 < st <= k {
                file_name_upto(p, st - 1)
            } else {
                None
            }
        } else if seg == seq!['.', '.'] {
            None
        } else {
            Some(seg)
        }
    }
}

/// Stem of a file name (`Path::file_stem`): the part before its last `.`,
/// or the whole name when it has no `.` or only a leading one.
pub open spec fn stem_of_name(n: Seq<char>) -> Seq<char> {
    match last_index_of(n, '.') {
        Some(i) => if i > 0 {
            n.subrange(0, i)
        } else {
            n
        },
        None => n,
    }
}

/// What `Path::file_stem` gives for a path.
pub open spec fn file_stem_of(path: Seq<char>) -> Option<Seq<char>> {
    match file_name_upto(path, path.len() as int) {
        Some(n) => Some(stem_of_name(n)),
        None => None,
    }
}

/// File stem used as snapshot id: `2026-05-15_11-56.db` → `2026-05-15_11-56`.
pub fn id_for(path: &str) -> (r: Option<String>)
    ensures
        match (r, file_stem_of(path@)) {
            (Some(s), Some(t)) => s@ == t,
            (None, None) => true,
            _ => false,
        },
{
    let p = chars_of(path);
    let mut k: usize = p.len();
    while k > 0
        invariant
            k <= p@.len(),
            p@ == path@,
            file_name_upto(p@, p@.len() as int) == file_name_upto(p@, k as int),
        decreases k,
    {
        proof {
            lemma_segment_start(p@, k as int);
        }
        let mut st: usize = k;
        while st > 0 && p[st - 1] != '/'
            invariant
                st <= k <= p@.len(),
                segment_start(p@, k as int) == segment_start(p@, st as int),
            decreases st,
        {
            st = st - 1;
        }
        let seg = slice_range(p.as_slice(), st, k);
        assert(seg@ == p@.subrange(st as int, k as int));
        let is_dot = seg.len() == 1 && seg[0] == '.';
        let is_dotdot = seg.len() == 2 && seg[0] == '.' && seg[1] == '.';
        proof {
            if is_dot {
                assert(seg@ =~= seq!['.']);
            }
            if seg@ =~= seq!['.'] {
                assert(is_dot);
            }
            if is_dotdot {
                assert(seg@ =~= seq!['.', '.']);
            }
            if seg@ =~= seq!['.', '.'] {
                assert(is_dotdot);
            }
        }
        if seg.len() == 0 || is_dot {
            if st == 0 {
                return None;
            }
            k = st - 1;
        } else if is_dotdot {
            return None;
        } else {
            proof {
                lemma_last_index_in_range(seg@, '.');
            }
            let stem = match find_last(seg.as_slice(), '.') {
                Some(i) => if i > 0 {
                    slice_range(seg.as_slice(), 0, i)
                } else {
                    seg
                },
                None => seg,
            };
            return Some(string_of(stem.as_slice()));
        }
    }
    None
}

/// How a snapshot spec is to be looked up.
#[derive(Debug, Clone, PartialEq, Eq)]
pub enum SnapshotRef {
    /// `@latest`: the newest snapshot in the data directory.
    Latest,
    /// `@latest~N`: the snapshot `N` places before the newest.
    Back(u64),
    /// A filesystem path, used as given.
    Path(String),
    /// A snapshot id, looked up as `<data_dir>/<id>.db`.
    Id(String),
}

/// A path of one component has an extension: it has a `.` after its first
/// character and is not `..` (`Path::extension` on such a name).
pub open spec fn name_has_extension(s: Seq<char>) -> bool {
    s != seq!['.', '.'] && exists|i: int| 0 < i < s.len() && s[i] == '.'
}

fn has_slash(s: &[char]) -> (b: bool)
    ensures
        b == s@.contains('/'),
{
    let mut i: usize = 0;
    while i < s.len()
        invariant
            i <= s@.len(),
            forall|k: int| 0 <= k < i ==> s@[k] != '/',
        decreases s.len() - i,
    {
        if s[i] == '/' {
            assert(s@[i as int] == '/');
            return true;
        }
        i = i + 1;
    }
    false
}

fn has_extension(s: &[char]) -> (b: bool)
    ensures
        b == name_has_extension(s@),
{
    if s.len() == 2 && s[0] == '.' && s[1] == '.' {
        assert(s@ =~= seq!['.', '.']);
        return false;
    }
    let mut i: usize = 1;
    while i < s.len()
        invariant
            1 <= i,
            !(s@ =~= seq!['.', '.']),
            forall|k: int| 0 < k < i && k < s@.len() ==> s@[k] != '.',
        decreases s.len() - i,
    {
        if s[i] == '.' {
            return true;
        }
        i = i + 1;
    }
    false
}

/// How many places before the newest snapshot a `@latest~N` spec points
/// (`N` decimal digits whose value fits in `i64`).
pub open spec fn latest_back(spec: Seq<char>) -> Option<int> {
    let p = "@latest~"@;
    let rest = spec.subrange(p.len() as int, spec.len() as int);
    if p.len() < spec.len() && starts_with(spec, p) && all_digits(rest) && digits_value(rest) <= i64::MAX {
        Some(digits_value(rest))
    } else {
        None
    }
}

fn all_digit_chars(s: &[char]) -> (b: bool)
    ensures
        b == all_digits(s@),
{
    let mut i: usize = 0;
    while i < s.len()
        invariant
            i <= s@.len(),
            forall|k: int| 0 <= k < i ==> is_digit(#[trigger] s@[k]),
        decreases s.len() - i,
    {
        if !(s[i] >= '0' && s[i] <= '9') {
            assert(!is_digit(s@[i as int]));
            return false;
        }
        i = i + 1;
    }
    true
}

fn latest_back_of(s: &[char]) -> (r: Option<u64>)
    ensures
        match r {
            Some(k) => latest_back(s@) == Some(k as int),
            None => latest_back(s@) is None,
        },
{
    let p = chars_of("@latest~");
    if p.len() < s.len() && starts_with_chars(s, p.as_slice()) {
        let rest = slice_range(s, p.len(), s.len());
        if all_digit_chars(rest.as_slice()) {
            match parse_digits(rest.as_slice()) {
                Some(v) => {
                    proof {
                        lemma_digits_value_nonneg(rest@);
                    }
                    Some(v as u64)
                },
                None => None,
            }
        } else {
            None
        }
    } else {
        None
    }
}

/// Interprets a snapshot spec (`resolve`'s decision, before any lookup).
pub fn spec_target(spec: &str) -> (r: SnapshotRef)
    ensures
        spec@ == "@latest"@ ==> r == SnapshotRef::Latest,
        spec@ != "@latest"@ && latest_back(spec@) is Some ==> (r matches SnapshotRef::Back(k) && latest_back(
            spec@,
        ) == Some(k as int)),
        spec@ != "@latest"@ && latest_back(spec@) is None && (spec@.contains('/') || name_has_extension(spec@))
            ==> (r matches SnapshotRef::Path(p) && p@ == spec@),
        spec@ != "@latest"@ && latest_back(spec@) is None && !(spec@.contains('/') || name_has_extension(
            spec@,
        )) ==> (r matches SnapshotRef::Id(p) && p@ == spec@),
{
    let s = chars_of(spec);
    let latest = chars_of("@latest");
    if crate::text::chars_eq(s.as_slice(), latest.as_slice()) {
        return SnapshotRef::Latest;
    }
    if let Some(k) = latest_back_of(s.as_slice()) {
        return SnapshotRef::Back(k);
    }
    if has_slash(s.as_slice()) || has_extension(s.as_slice()) {
        SnapshotRef::Path(spec.to_owned())
    } else {
        SnapshotRef::Id(spec.to_owned())
    }
}

/// A directory entry name that `Path::extension` reads as `db`: it ends in
/// `.db` with at least one character before the dot.
pub open spec fn is_db_name(n: Seq<char>) -> bool {
    n.len() > 3 && ends_with(n, ".db"@)
}

pub open spec fn db_entry(e: (String, u64)) -> bool {
    is_db_name(e.0@)
}

/// The snapshot files among the entries of the data directory.
pub open spec fn db_entries(entries: Seq<(String, u64)>) -> Seq<(String, u64)> {
    entries.filter(|e: (String, u64)| db_entry(e))
}

/// Entries ordered by name (`String`'s order), earliest first.
pub open spec fn names_ascending(v: Seq<(String, u64)>) -> bool {
    forall|a: int, b: int| 0 <= a < b < v.len() ==> !lex_lt(#[trigger] v[b].0@, #[trigger] v[a].0@)
}

fn db_name(name: &String) -> (b: bool)
    ensures
        b == is_db_name(name@),
{
    let n = chars_of(name.as_str());
    n.len() > 3 && ends_with_chars(n.as_slice(), chars_of(".db").as_slice())
}

/// The snapshots of the data directory, by name: of its `(name, bytes)`
/// entries those whose name has the `db` extension, sorted by name.
pub fn snapshot_listing(entries: &[(String, u64)]) -> (out: Vec<(String, u64)>)
    ensures
        out@.to_multiset() == db_entries(entries@).to_multiset(),
        names_ascending(out@),
{
    let mut r: Vec<(String, u64)> = Vec::new();
    let mut i: usize = 0;
    assert(entries@.subrange(0, 0).filter(|e: (String, u64)| db_entry(e)) =~= r@);
    while i < entries.len()
        invariant
            i <= entries@.len(),
            names_ascending(r@),
            r@.to_multiset() == entries@.subrange(0, i as int).filter(|e: (String, u64)| db_entry(e)).to_multiset(),
        decreases entries.len() - i,
    {
        let ghost pre = entries@.subrange(0, i as int);
        proof {
            assert(entries@.subrange(0, i + 1) =~= pre.push(entries@[i as int]));
            pre.lemma_filter_push(entries@[i as int], |e: (String, u64)| db_entry(e));
        }
        if db_name(&entries[i].0) {
            let x = (entries[i].0.clone(), entries[i].1);
            assert(x == entries@[i as int]);
            let xn = chars_of(x.0.as_str());
            let mut pos: usize = 0;
            while pos < r.len() && !lex_less(xn.as_slice(), chars_of(r[pos].0.as_str()).as_slice())
                invariant
                    pos <= r@.len(),
                    xn@ == x.0@,
                    forall|k: int| 0 <= k < pos ==> !lex_lt(x.0@, #[trigger] r@[k].0@),
                decreases r.len() - pos,
            {
                pos = pos + 1;
            }
            let ghost before = r@;
            r.insert(pos, x);
            proof {
                assert(r@ == before.insert(pos as int, x));
                to_multiset_insert(before, pos as int, x);
                to_multiset_build(pre.filter(|e: (String, u64)| db_entry(e)), x);
                assert forall|a: int, b: int| 0 <= a < b < r@.len() implies !lex_lt(
                    #[trigger] r@[b].0@,
                    #[trigger] r@[a].0@,
                ) by {
                    if b < pos {
                        assert(r@[a] == before[a] && r@[b] == before[b]);
                    } else if a > pos {
                        assert(r@[a] == before[a - 1] && r@[b] == before[b - 1]);
                    } else if a == pos {
                        // x sorts before before[pos], which sorts no later than before[b - 1].
                        assert(lex_lt(x.0@, before[pos as int].0@));
                        assert(r@[b] == before[b - 1]);
                        if b - 1 > pos {
                            assert(!lex_lt(before[b - 1].0@, before[pos as int].0@));
                        }
                        lemma_lex_transitive(before[b - 1].0@, x.0@, before[pos as int].0@);
                        lemma_lex_asymmetric(x.0@, before[pos as int].0@);
                    } else {
                        assert(r@[a] == before[a]);
                        if b == pos {
                            assert(!lex_lt(x.0@, before[a].0@));
                        } else {
                            assert(r@[b] == before[b - 1]);
                        }
                    }
                }
            }
        }
        i = i + 1;
    }
    assert(entries@.subrange(0, entries@.len() as int) =~= entries@);
    r
}

/// `name` inside directory `dir` (`Path::join` with a plain file name).
pub open spec fn joined(dir: Seq<char>, name: Seq<char>) -> Seq<char> {
    if dir.len() == 0 {
        name
    } else if dir.last() == '/' {
        dir + name
    } else {
        dir + seq!['/'] + name
    }
}

fn join_name(dir: &str, name: &str) -> (p: String)
    ensures
        p@ == joined(dir@, name@),
{
    let d = chars_of(dir);
    if d.len() == 0 {
        name.to_owned()
    } else if d[d.len() - 1] == '/' {
        String::from_str(dir).concat(name)
    } else {
        proof {
            reveal_strlit("/");
            assert(dir@ + "/"@ + name@ =~= dir@ + seq!['/'] + name@);
        }
        String::from_str(dir).concat("/").concat(name)
    }
}

/// `n` is the name of one of `snaps` and no name among them sorts after it.
pub open spec fn is_newest(n: Seq<char>, snaps: Seq<(String, u64)>) -> bool {
    &&& exists|k: int| 0 <= k < snaps.len() && #[trigger] snaps[k].0@ == n
    &&& forall|j: int| 0 <= j < snaps.len() ==> !lex_lt(n, #[trigger] snaps[j].0@)
}

/// Some entry is called `name`.
pub open spec fn has_entry(entries: Seq<(String, u64)>, name: Seq<char>) -> bool {
    exists|k: int| 0 <= k < entries.len() && #[trigger] entries[k].0@ == name
}

/// The snapshots of the entries, arranged by name, earliest first.
pub open spec fn by_name(listing: Seq<(String, u64)>, entries: Seq<(String, u64)>) -> bool {
    listing.to_multiset() == db_entries(entries).to_multiset() && names_ascending(listing)
}

/// What `resolve` answers for a spec, the data directory and that
/// directory's `(name, bytes)` entries: `@latest` is the snapshot whose
/// name sorts last, `@latest~N` the one `N` places before it, a path is
/// kept as given, and an id names `<id>.db` in the data directory.
pub open spec fn resolve_answer(
    spec: Seq<char>,
    dir: Seq<char>,
    entries: Seq<(String, u64)>,
    r: Result<String, String>,
) -> bool {
    if spec == "@latest"@ {
        match r {
            Ok(p) => db_entries(entries).len() > 0 && exists|n: Seq<char>|
                #[trigger] is_newest(n, db_entries(entries)) && p@ == joined(dir, n),
            Err(e) => db_entries(entries).len() == 0 && e@ == "no snapshot found; run `disky scan` first (not found)"@,
        }
    } else if latest_back(spec) is Some {
        let k = latest_back(spec)->0;
        match r {
            Ok(p) => k < db_entries(entries).len() && exists|listing: Seq<(String, u64)>|
                #[trigger] by_name(listing, entries) && p@ == joined(dir, listing[listing.len() - 1 - k].0@),
            Err(e) => k >= db_entries(entries).len() && e@ == "no snapshot at "@ + spec + " (not found)"@,
        }
    } else if spec.contains('/') || name_has_extension(spec) {
        r matches Ok(p) && p@ == spec
    } else {
        match r {
            Ok(p) => has_entry(entries, spec + ".db"@) && p@ == joined(dir, spec + ".db"@),
            Err(e) => !has_entry(entries, spec + ".db"@) && e@ == "snapshot '"@ + spec + "' not found in "@ + dir
                + " (not found)"@,
        }
    }
}

proof fn lemma_last_is_newest(snaps: Seq<(String, u64)>, all: Seq<(String, u64)>)
    requires
        snaps.to_multiset() == all.to_multiset(),
        names_ascending(snaps),
        snaps.len() > 0,
    ensures
        is_newest(snaps.last().0@, all),
{
    let n = snaps.last().0@;
    to_multiset_contains(snaps, snaps.last());
    to_multiset_contains(all, snaps.last());
    assert(snaps.contains(snaps.last()));
    let k = choose|k: int| 0 <= k < all.len() && all[k] == snaps.last();
    assert(all[k].0@ == n);
    assert forall|j: int| 0 <= j < all.len() implies !lex_lt(n, #[trigger] all[j].0@) by {
        to_multiset_contains(all, all[j]);
        to_multiset_contains(snaps, all[j]);
        assert(all.contains(all[j]));
        let a = choose|a: int| 0 <= a < snaps.len() && snaps[a] == all[j];
        if a < snaps.len() - 1 {
            assert(!lex_lt(snaps[snaps.len() - 1].0@, snaps[a].0@));
        } else {
            lemma_lex_irreflexive(n);
        }
    }
}

fn entry_named(entries: &[(String, u64)], name: &String) -> (b: bool)
    ensures
        b == has_entry(entries@, name@),
{
    let mut i: usize = 0;
    while i < entries.len()
        invariant
            i <= entries@.len(),
            forall|k: int| 0 <= k < i ==> (#[trigger] entries@[k]).0@ != name@,
        decreases entries.len() - i,
    {
        if entries[i].0 == *name {
            return true;
        }
        i = i + 1;
    }
    false
}

/// Resolves a snapshot spec (`@latest`, an id, or a path) against the data
/// directory `dir` and its `(name, bytes)` entries; the error is the
/// message the command reports.
pub fn resolve(spec: &str, dir: &str, entries: &[(String, u64)]) -> (r: Result<String, String>)
    ensures
        resolve_answer(spec@, dir@, entries@, r),
{
    match spec_target(spec) {
        SnapshotRef::Latest => {
            let snaps = snapshot_listing(entries);
            if snaps.len() == 0 {
                proof {
                    to_multiset_len(snaps@);
                    to_multiset_len(db_entries(entries@));
                }
                Err(String::from_str("no snapshot found; run `disky scan` first (not found)"))
            } else {
                let last = snaps.len() - 1;
                proof {
                    lemma_last_is_newest(snaps@, db_entries(entries@));
                    assert(snaps@.last() == snaps@[last as int]);
                    to_multiset_len(snaps@);
                    to_multiset_len(db_entries(entries@));
                }
                Ok(join_name(dir, snaps[last].0.as_str()))
            }
        },
        SnapshotRef::Back(k) => {
            let snaps = snapshot_listing(entries);
            proof {
                to_multiset_len(snaps@);
                to_multiset_len(db_entries(entries@));
            }
            if k < snaps.len() as u64 {
                let idx = snaps.len() - 1 - (k as usize);
                assert(by_name(snaps@, entries@));
                Ok(join_name(dir, snaps[idx].0.as_str()))
            } else {
                Err(String::from_str("no snapshot at ").concat(spec).concat(" (not found)"))
            }
        },
        SnapshotRef::Path(p) => Ok(p),
        SnapshotRef::Id(id) => {
            let want = String::from_str(id.as_str()).concat(".db");
            if entry_named(entries, &want) {
                Ok(join_name(dir, want.as_str()))
            } else {
                Err(String::from_str("snapshot '").concat(spec).concat("' not found in ").concat(dir).concat(" (not found)"))
            }
        },
    }
}

proof fn lemma_segment_of_suffix(prefix: Seq<char>, name: Seq<char>, k: int)
    requires
        prefix.len() == 0 || prefix.last() == '/',
        forall|i: int| 0 <= i < name.len() ==> name[i] != '/',
        prefix.len() <= k <= prefix.len() + name.len(),
    ensures
        segment_start(prefix + name, k) == prefix.len(),
    decreases k,
{
    let q = prefix + name;
    if k > prefix.len() {
        assert(q[k - 1] == name[k - 1 - prefix.len()]);
        lemma_segment_of_suffix(prefix, name, k - 1);
    } else if k > 0 {
        assert(q[k - 1] == prefix.last());
    }
}

/// An id resolved to `<id>.db` in the data directory reads back as that
/// id: the file stem of the resolved path is the id.
pub proof fn law_resolved_id_reads_back(
    spec: Seq<char>,
    dir: Seq<char>,
    entries: Seq<(String, u64)>,
    r: Result<String, String>,
)
    requires
        resolve_answer(spec, dir, entries, r),
        r is Ok,
        spec.len() > 0,
        spec != "@latest"@,
        latest_back(spec) is None,
        !(spec.contains('/') || name_has_extension(spec)),
    ensures
        file_stem_of(r->Ok_0@) == Some(spec),
{
    reveal_strlit(".db");
    let name = spec + ".db"@;
    let p = r->Ok_0@;
    let prefix = if dir.len() == 0 {
        dir
    } else if dir.last() == '/' {
        dir
    } else {
        dir + seq!['/']
    };
    assert(p =~= prefix + name);
    assert forall|i: int| 0 <= i < name.len() implies name[i] != '/' by {
        if i < spec.len() {
            assert(name[i] == spec[i]);
            if spec[i] == '/' {
                assert(spec.contains('/'));
            }
        }
    }
    lemma_segment_of_suffix(prefix, name, p.len() as int);
    assert(p.subrange(prefix.len() as int, p.len() as int) =~= name);
    assert(name.len() == spec.len() + 3);
    assert(name.drop_last().drop_last().drop_last() =~= spec);
    assert(name.drop_last() =~= spec + seq!['.', 'd']);
    assert(name.drop_last().drop_last() =~= spec + seq!['.']);
    let d1 = name.drop_last();
    let d2 = d1.drop_last();
    assert(name.last() == 'b');
    assert(d1.last() == 'd');
    assert(d2.last() == '.');
    assert(last_index_of(d2, '.') == Some(spec.len() as int));
    assert(last_index_of(d1, '.') == last_index_of(d2, '.'));
    assert(last_index_of(name, '.') == last_index_of(d1, '.'));
    assert(name.subrange(0, spec.len() as int) =~= spec);
}

} // verus!
