//! `.diskyignore` patterns: gitignore-style ergonomics, additive only.
//!
//! Patterns are substring matches against directory basenames, consistent
//! with the built-in skip list. Globs (`*`, `?`) and negation (`!`) are not
//! supported yet: such lines are dropped.

use vstd::prelude::*;
use vstd::string::*;

use crate::text::{chars_of, contains, contains_chars, string_of, trim, trim_chars};

verus! {

/// Directory basenames skipped by every scan.
pub open spec fn default_skip_list() -> Seq<Seq<char>> {
    seq![
        "node_modules"@,
        "target"@,
        "__pycache__"@,
        ".next"@,
        "dist"@,
        "build"@,
        ".venv"@,
        "venv"@,
        ".gradle"@,
        ".pytest_cache"@,
    ]
}

pub open spec fn string_views(v: Seq<String>) -> Seq<Seq<char>> {
    v.map_values(|s: String| s@)
}

/// The built-in skip list.
pub fn default_skip_substrings() -> (v: Vec<String>)
    ensures
        string_views(v@) == default_skip_list(),
{
    let v = vec![
        "node_modules".to_owned(),
        "target".to_owned(),
        "__pycache__".to_owned(),
        ".next".to_owned(),
        "dist".to_owned(),
        "build".to_owned(),
        ".venv".to_owned(),
        "venv".to_owned(),
        ".gradle".to_owned(),
        ".pytest_cache".to_owned(),
    ];
    assert(string_views(v@) =~= default_skip_list());
    v
}

/// The pieces of `s` between line feeds (always at least one).
pub open spec fn line_pieces(s: Seq<char>) -> Seq<Seq<char>>
    decreases s.len(),
{
    if s.len() == 0 {
        seq![Seq::empty()]
    } else if s.last() == '\n' {
        line_pieces(s.drop_last()).push(Seq::empty())
    } else {
        let p = line_pieces(s.drop_last());
        p.update(p.len() - 1, p.last().push(s.last()))
    }
}

/// The pattern a line gives: its trimmed text, unless that is empty, a
/// `#` comment, holds `*` or `?`, or starts with `!`.
pub open spec fn line_pattern(line: Seq<char>) -> Option<Seq<char>> {
    let t = trim(line);
    if t.len() == 0 || t[0] == '#' || t.contains('*') || t.contains('?') || t[0] == '!' {
        None
    } else {
        Some(t)
    }
}

/// Patterns of a sequence of lines, in order.
pub open spec fn patterns_of(lines: Seq<Seq<char>>) -> Seq<Seq<char>>
    decreases lines.len(),
{
    if lines.len() == 0 {
        Seq::empty()
    } else {
        patterns_of(lines.drop_last()) + match line_pattern(lines.last()) {
            Some(t) => seq![t],
            None => Seq::empty(),
        }
    }
}

proof fn lemma_pieces_nonempty(s: Seq<char>)
    ensures
        line_pieces(s).len() >= 1,
    decreases s.len(),
{
    if s.len() > 0 {
        lemma_pieces_nonempty(s.drop_last());
    }
}

fn has_char(s: &[char], c: char) -> (b: bool)
    ensures
        b == s@.contains(c),
{
    let mut i: usize = 0;
    while i < s.len()
        invariant
            i <= s@.len(),
            forall|k: int| 0 <= k < i ==> s@[k] != c,
        decreases s.len() - i,
    {
        if s[i] == c {
            assert(s@[i as int] == c);
            return true;
        }
        i = i + 1;
    }
    false
}

fn pattern_from_line(line: &[char]) -> (r: Option<String>)
    ensures
        match (r, line_pattern(line@)) {
            (Some(p), Some(t)) => p@ == t,
            (None, None) => true,
            _ => false,
        },
{
    let t = trim_chars(line);
    if t.len() == 0 || t[0] == '#' || has_char(t.as_slice(), '*') || has_char(t.as_slice(), '?') || t[0] == '!' {
        None
    } else {
        Some(string_of(t.as_slice()))
    }
}

/// Patterns of a `.diskyignore` body, one per kept line, in order.
/// Lenient: lines that are not patterns are dropped, never an error.
pub fn parse(body: &str) -> (out: Vec<String>)
    ensures
        string_views(out@) == patterns_of(line_pieces(body@)),
{
    let s = chars_of(body);
    let mut out: Vec<String> = Vec::new();
    let mut cur: Vec<char> = Vec::new();
    let mut i: usize = 0;
    while i < s.len()
        invariant
            i <= s@.len(),
            s@ == body@,
            line_pieces(s@.subrange(0, i as int)).len() >= 1,
            cur@ == line_pieces(s@.subrange(0, i as int)).last(),
            string_views(out@) == patterns_of(line_pieces(s@.subrange(0, i as int)).drop_last()),
        decreases s.len() - i,
    {
        let ghost pre = s@.subrange(0, i as int);
        let ghost pieces = line_pieces(pre);
        let c = s[i];
        assert(s@.subrange(0, i + 1).drop_last() =~= pre);
        assert(s@.subrange(0, i + 1).last() == c);
        if c == '\n' {
            let ghost before = string_views(out@);
            match pattern_from_line(cur.as_slice()) {
                Some(p) => {
                    let ghost pv = p@;
                    out.push(p);
                    assert(string_views(out@) =~= before + seq![pv]);
                },
                None => {
                    assert(string_views(out@) =~= before + Seq::<Seq<char>>::empty());
                },
            }
            assert(pieces.drop_last().push(pieces.last()) =~= pieces);
            assert(line_pieces(s@.subrange(0, i + 1)).drop_last() =~= pieces);
            cur = Vec::new();
            assert(cur@ =~= line_pieces(s@.subrange(0, i + 1)).last());
        } else {
            cur.push(c);
            assert(line_pieces(s@.subrange(0, i + 1)).drop_last() =~= pieces.drop_last());
        }
        i = i + 1;
    }
    assert(s@.subrange(0, s@.len() as int) =~= s@);
    let ghost pieces = line_pieces(s@);
    let ghost before = string_views(out@);
    match pattern_from_line(cur.as_slice()) {
        Some(p) => {
            let ghost pv = p@;
            out.push(p);
            assert(string_views(out@) =~= before + seq![pv]);
        },
        None => {
            assert(string_views(out@) =~= before + Seq::<Seq<char>>::empty());
        },
    }
    assert(pieces.drop_last().push(pieces.last()) =~= pieces);
    out
}

/// Some pattern occurs in the basename.
pub open spec fn skipped_by(basename: Seq<char>, patterns: Seq<String>) -> bool {
    exists|k: int| 0 <= k < patterns.len() && contains(basename, #[trigger] patterns[k]@)
}

/// True if `basename` holds one of the patterns as a substring.
pub fn should_skip(basename: &str, patterns: &[String]) -> (b: bool)
    ensures
        b == skipped_by(basename@, patterns@),
{
    let name = chars_of(basename);
    let mut k: usize = 0;
    while k < patterns.len()
        invariant
            k <= patterns@.len(),
            name@ == basename@,
            forall|j: int| 0 <= j < k ==> !contains(basename@, #[trigger] patterns@[j]@),
        decreases patterns.len() - k,
    {
        let p = chars_of(patterns[k].as_str());
        if contains_chars(name.as_slice(), p.as_slice()) {
            return true;
        }
        k = k + 1;
    }
    false
}

/// `acc` followed by each pattern of `more` not already present, in order.
pub open spec fn add_unique(acc: Seq<Seq<char>>, more: Seq<Seq<char>>) -> Seq<Seq<char>>
    decreases more.len(),
{
    if more.len() == 0 {
        acc
    } else {
        let a = add_unique(acc, more.drop_last());
        if a.contains(more.last()) {
            a
        } else {
            a.push(more.last())
        }
    }
}

fn contains_pattern(v: &Vec<String>, p: &String) -> (b: bool)
    ensures
        b == string_views(v@).contains(p@),
{
    let mut i: usize = 0;
    while i < v.len()
        invariant
            i <= v@.len(),
            forall|k: int| 0 <= k < i ==> v@[k]@ != p@,
        decreases v.len() - i,
    {
        if v[i] == *p {
            assert(string_views(v@)[i as int] == p@);
            return true;
        }
        i = i + 1;
    }
    assert forall|k: int| 0 <= k < string_views(v@).len() implies string_views(v@)[k] != p@ by {
        assert(v@[k]@ != p@);
    }
    false
}

/// Adds the patterns of one `.diskyignore` file to those gathered so far,
/// skipping any already present.
pub fn merge_patterns(acc: &mut Vec<String>, more: &[String])
    ensures
        string_views(final(acc)@) == add_unique(string_views(old(acc)@), string_views(more@)),
{
    let ghost start = string_views(acc@);
    let mut i: usize = 0;
    while i < more.len()
        invariant
            i <= more@.len(),
            string_views(acc@) == add_unique(start, string_views(more@).subrange(0, i as int)),
        decreases more.len() - i,
    {
        let ghost pre = string_views(more@).subrange(0, i as int);
        assert(string_views(more@).subrange(0, i + 1).drop_last() =~= pre);
        assert(string_views(more@).subrange(0, i + 1).last() == more@[i as int]@);
        let ghost before = string_views(acc@);
        if !contains_pattern(acc, &more[i]) {
            acc.push(more[i].clone());
            assert(string_views(acc@) =~= before.push(more@[i as int]@));
        }
        i = i + 1;
    }
    assert(string_views(more@).subrange(0, more@.len() as int) =~= string_views(more@));
}

// ---------------------------------------------------------------------
// Laws
// ---------------------------------------------------------------------

/// A pattern is never empty, never a comment, never negated, and never
/// holds a glob character.
pub open spec fn clean_pattern(p: Seq<char>) -> bool {
    &&& p.len() > 0
    &&& p[0] != '#'
    &&& p[0] != '!'
    &&& !p.contains('*')
    &&& !p.contains('?')
}

/// Every pattern read from a body is clean (malformed lines are dropped).
pub proof fn law_patterns_are_clean(lines: Seq<Seq<char>>)
    ensures
        forall|k: int| 0 <= k < patterns_of(lines).len() ==> clean_pattern(#[trigger] patterns_of(lines)[k]),
    decreases lines.len(),
{
    if lines.len() > 0 {
        law_patterns_are_clean(lines.drop_last());
        let rest = patterns_of(lines.drop_last());
        let tail = match line_pattern(lines.last()) {
            Some(t) => seq![t],
            None => Seq::<Seq<char>>::empty(),
        };
        assert forall|k: int| 0 <= k < patterns_of(lines).len() implies clean_pattern(#[trigger] patterns_of(lines)[k]) by {
            if k < rest.len() {
                assert(patterns_of(lines)[k] == rest[k]);
            } else {
                assert(patterns_of(lines)[k] == tail[k - rest.len()]);
            }
        }
    }
}

/// Merging keeps what was there, in front; gains every new pattern; and
/// adds no duplicate.
pub proof fn law_merge_keeps_and_dedups(acc: Seq<Seq<char>>, more: Seq<Seq<char>>)
    ensures
        add_unique(acc, more).len() >= acc.len(),
        add_unique(acc, more).subrange(0, acc.len() as int) == acc,
        forall|x: Seq<char>| #[trigger] add_unique(acc, more).contains(x) <==> (acc.contains(x) || more.contains(x)),
        acc.no_duplicates() ==> add_unique(acc, more).no_duplicates(),
    decreases more.len(),
{
    if more.len() > 0 {
        law_merge_keeps_and_dedups(acc, more.drop_last());
        let a = add_unique(acc, more.drop_last());
        let x = more.last();
        if !a.contains(x) {
            assert(a.push(x).subrange(0, acc.len() as int) =~= a.subrange(0, acc.len() as int));
            assert forall|y: Seq<char>| #[trigger] a.push(x).contains(y) <==> (a.contains(y) || y == x) by {
                if a.push(x).contains(y) {
                    let j = choose|j: int| 0 <= j < a.push(x).len() && a.push(x)[j] == y;
                    if j < a.len() {
                        assert(a[j] == y);
                    }
                }
                if a.contains(y) {
                    let j = choose|j: int| 0 <= j < a.len() && a[j] == y;
                    assert(a.push(x)[j] == y);
                }
                if y == x {
                    assert(a.push(x)[a.len() as int] == y);
                }
            }
            if a.no_duplicates() {
                assert forall|i: int, j: int| 0 <= i < a.push(x).len() && 0 <= j < a.push(x).len() && i != j implies a.push(x)[i]
                    != a.push(x)[j] by {
                    if i < a.len() && j < a.len() {
                        assert(a.push(x)[i] == a[i] && a.push(x)[j] == a[j]);
                    } else if i < a.len() {
                        assert(a.contains(a[i]));
                    } else if j < a.len() {
                        assert(a.contains(a[j]));
                    }
                }
            }
        }
        assert forall|y: Seq<char>| #[trigger] more.contains(y) <==> (more.drop_last().contains(y) || y == x) by {
            if more.contains(y) {
                let j = choose|j: int| 0 <= j < more.len() && more[j] == y;
                if j < more.len() - 1 {
                    assert(more.drop_last()[j] == y);
                }
            }
            if more.drop_last().contains(y) {
                let j = choose|j: int| 0 <= j < more.drop_last().len() && more.drop_last()[j] == y;
                assert(more[j] == y);
            }
            if y == x {
                assert(more[more.len() - 1] == y);
            }
        }
    }
}

} // verus!
