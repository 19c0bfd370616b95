//! Well-known disk-hoggy directories (`node_modules`, `target`,
//! `__pycache__`, ...): the target table, the protected-path floor, and the
//! ranking of what a snapshot query found.

use vstd::prelude::*;
use vstd::string::*;

use crate::sorting::{key_desc_fn, sort_key_desc};
use crate::text::{chars_of, contains, contains_chars, lex_less, lex_lt};

verus! {

/// Built-in target categories, each with the directory basenames it covers.
pub open spec fn target_table() -> Seq<(Seq<char>, Seq<Seq<char>>)> {
    seq![
        ("node_modules"@, seq!["node_modules"@]),
        ("target"@, seq!["target"@]),
        ("pycache"@, seq!["__pycache__"@]),
        ("next"@, seq![".next"@]),
        ("dist"@, seq!["dist"@]),
        ("build"@, seq!["build"@]),
        ("venv"@, seq![".venv"@, "venv"@]),
        ("gradle"@, seq![".gradle"@]),
        ("pytest"@, seq![".pytest_cache"@]),
    ]
}

/// Path pieces that are never cleanup candidates, however their basename
/// matched: package-manager stores, toolchains, OS caches, editor plugins.
pub open spec fn protected_pieces() -> Seq<Seq<char>> {
    seq![
        "/.cargo/registry/"@,
        "/.cargo/git/"@,
        "/.rustup/"@,
        "/.npm/"@,
        "/.pnpm-store/"@,
        "/.yarn/cache/"@,
        "/site-packages/"@,
        "/.cache/pip/"@,
        "/.cache/uv/"@,
        "/Library/Caches/"@,
        "/Library/Group Containers/"@,
        "/Library/Application Support/"@,
        "/.vscode/extensions/"@,
        "/.windsurf/extensions/"@,
        "/.antigravity/"@,
    ]
}

pub open spec fn str_views(v: Seq<&str>) -> Seq<Seq<char>> {
    v.map_values(|s: &str| s@)
}

/// The target table: category names with their basenames.
pub fn targets() -> (t: Vec<(&'static str, Vec<&'static str>)>)
    ensures
        t@.len() == target_table().len(),
        forall|k: int|
            0 <= k < t@.len() ==> (#[trigger] t@[k]).0@ == target_table()[k].0 && str_views(t@[k].1@)
                == target_table()[k].1,
{
    let t = vec![
        ("node_modules", vec!["node_modules"]),
        ("target", vec!["target"]),
        ("pycache", vec!["__pycache__"]),
        ("next", vec![".next"]),
        ("dist", vec!["dist"]),
        ("build", vec!["build"]),
        ("venv", vec![".venv", "venv"]),
        ("gradle", vec![".gradle"]),
        ("pytest", vec![".pytest_cache"]),
    ];
    proof {
        assert forall|k: int| 0 <= k < t@.len() implies (#[trigger] t@[k]).0@ == target_table()[k].0 && str_views(
            t@[k].1@,
        ) == target_table()[k].1 by {
            assert(str_views(t@[k].1@) =~= target_table()[k].1);
        }
    }
    t
}

/// The protected-path pieces.
pub fn always_skip_substrings() -> (v: Vec<&'static str>)
    ensures
        str_views(v@) == protected_pieces(),
{
    let v = vec![
        "/.cargo/registry/",
        "/.cargo/git/",
        "/.rustup/",
        "/.npm/",
        "/.pnpm-store/",
        "/.yarn/cache/",
        "/site-packages/",
        "/.cache/pip/",
        "/.cache/uv/",
        "/Library/Caches/",
        "/Library/Group Containers/",
        "/Library/Application Support/",
        "/.vscode/extensions/",
        "/.windsurf/extensions/",
        "/.antigravity/",
    ];
    assert(str_views(v@) =~= protected_pieces());
    v
}

/// A path holds one of the protected pieces.
pub open spec fn protected(path: Seq<char>) -> bool {
    exists|k: int| 0 <= k < protected_pieces().len() && contains(path, #[trigger] protected_pieces()[k])
}

/// Whether a path must never be cleaned.
pub fn is_protected(path: &str) -> (b: bool)
    ensures
        b == protected(path@),
{
    let pieces = always_skip_substrings();
    let p = chars_of(path);
    let mut k: usize = 0;
    while k < pieces.len()
        invariant
            k <= pieces@.len(),
            str_views(pieces@) == protected_pieces(),
            p@ == path@,
            forall|j: int| 0 <= j < k ==> !contains(path@, #[trigger] protected_pieces()[j]),
        decreases pieces.len() - k,
    {
        let piece = chars_of(pieces[k]);
        assert(pieces@[k as int]@ == protected_pieces()[k as int]);
        if contains_chars(p.as_slice(), piece.as_slice()) {
            return true;
        }
        k = k + 1;
    }
    false
}

/// Category names of the table, in order.
pub open spec fn category_names() -> Seq<Seq<char>> {
    target_table().map_values(|e: (Seq<char>, Seq<Seq<char>>)| e.0)
}

/// Every category name, in table order (the set used when no target is given).
pub fn default_target_names() -> (names: Vec<&'static str>)
    ensures
        str_views(names@) == category_names(),
{
    let t = targets();
    let mut names: Vec<&'static str> = Vec::new();
    let mut k: usize = 0;
    while k < t.len()
        invariant
            k <= t@.len(),
            t@.len() == target_table().len(),
            forall|j: int|
                0 <= j < t@.len() ==> (#[trigger] t@[j]).0@ == target_table()[j].0 && str_views(t@[j].1@)
                    == target_table()[j].1,
            str_views(names@) == category_names().subrange(0, k as int),
        decreases t.len() - k,
    {
        let ghost before = names@;
        assert(t@[k as int].0@ == target_table()[k as int].0);
        assert(category_names()[k as int] == target_table()[k as int].0);
        names.push(t[k].0);
        assert(str_views(names@) =~= str_views(before).push(t@[k as int].0@));
        assert(category_names().subrange(0, k + 1) =~= category_names().subrange(0, k as int).push(
            category_names()[k as int],
        ));
        k = k + 1;
    }
    assert(category_names().subrange(0, k as int) =~= category_names());
    names
}

/// Index of the table entry whose category is `want`.
fn find_target(t: &Vec<(&'static str, Vec<&'static str>)>, want: &[char]) -> (r: Option<usize>)
    requires
        t@.len() == target_table().len(),
        forall|j: int| 0 <= j < t@.len() ==> (#[trigger] t@[j]).0@ == target_table()[j].0,
    ensures
        match r {
            Some(k) => k < t@.len() && target_index_from(want@, 0) == Some(k as int),
            None => target_index_from(want@, 0) is None,
        },
{
    let mut k: usize = 0;
    while k < t.len()
        invariant
            k <= t@.len(),
            t@.len() == target_table().len(),
            forall|j: int| 0 <= j < t@.len() ==> (#[trigger] t@[j]).0@ == target_table()[j].0,
            target_index_from(want@, 0) == target_index_from(want@, k as int),
        decreases t.len() - k,
    {
        let cat = chars_of(t[k].0);
        assert(t@[k as int].0@ == target_table()[k as int].0);
        if crate::text::chars_eq(cat.as_slice(), want) {
            return Some(k);
        }
        k = k + 1;
    }
    None
}

/// First table entry at or after `k` whose category is `name`.
pub open spec fn target_index_from(name: Seq<char>, k: int) -> Option<int>
    decreases target_table().len() - k,
{
    if k < 0 || k >= target_table().len() {
        None
    } else if target_table()[k].0 == name {
        Some(k)
    } else {
        target_index_from(name, k + 1)
    }
}

/// `(category, basename)` pairs a requested category expands to; none for
/// an unknown category.
pub open spec fn expand_target(name: Seq<char>) -> Seq<(Seq<char>, Seq<char>)> {
    match target_index_from(name, 0) {
        Some(k) => target_table()[k].1.map_values(|b: Seq<char>| (target_table()[k].0, b)),
        None => Seq::empty(),
    }
}

/// Expansion of the requested categories, in request order.
pub open spec fn basename_pairs(names: Seq<Seq<char>>) -> Seq<(Seq<char>, Seq<char>)>
    decreases names.len(),
{
    if names.len() == 0 {
        Seq::empty()
    } else {
        basename_pairs(names.drop_last()) + expand_target(names.last())
    }
}

pub open spec fn pair_views(v: Seq<(&str, &str)>) -> Seq<(Seq<char>, Seq<char>)> {
    v.map_values(|p: (&str, &str)| (p.0@, p.1@))
}

pub open spec fn string_views(v: Seq<String>) -> Seq<Seq<char>> {
    v.map_values(|s: String| s@)
}

/// The `(category, basename)` pairs for the requested categories; unknown
/// categories are skipped.
pub fn basenames_for(names: &[String]) -> (out: Vec<(&'static str, &'static str)>)
    ensures
        pair_views(out@) == basename_pairs(string_views(names@)),
{
    let t = targets();
    let mut out: Vec<(&'static str, &'static str)> = Vec::new();
    let mut i: usize = 0;
    while i < names.len()
        invariant
            i <= names@.len(),
            t@.len() == target_table().len(),
            forall|j: int|
                0 <= j < t@.len() ==> (#[trigger] t@[j]).0@ == target_table()[j].0 && str_views(t@[j].1@)
                    == target_table()[j].1,
            pair_views(out@) == basename_pairs(string_views(names@).subrange(0, i as int)),
        decreases names.len() - i,
    {
        let ghost pre = string_views(names@).subrange(0, i as int);
        assert(string_views(names@).subrange(0, i + 1).drop_last() =~= pre);
        let want = chars_of(names[i].as_str());
        let found = find_target(&t, want.as_slice());
        let ghost before = pair_views(out@);
        match found {
            Some(k) => {
                assert(target_index_from(want@, 0) == Some(k as int));
                let bases = &t[k].1;
                let cat = t[k].0;
                assert(t@[k as int].0@ == target_table()[k as int].0);
                let mut b: usize = 0;
                while b < bases.len()
                    invariant
                        b <= bases@.len(),
                        k < target_table().len(),
                        str_views(bases@) == target_table()[k as int].1,
                        cat@ == target_table()[k as int].0,
                        pair_views(out@) == before + target_table()[k as int].1.map_values(
                            |x: Seq<char>| (target_table()[k as int].0, x),
                        ).subrange(0, b as int),
                    decreases bases.len() - b,
                {
                    assert(bases@[b as int]@ == target_table()[k as int].1[b as int]);
                    let ghost prev = out@;
                    out.push((cat, bases[b]));
                    assert(pair_views(out@) =~= pair_views(prev).push((cat@, bases@[b as int]@)));
                    b = b + 1;
                    assert(pair_views(out@) =~= before + target_table()[k as int].1.map_values(
                        |x: Seq<char>| (target_table()[k as int].0, x),
                    ).subrange(0, b as int));
                }
                assert(target_table()[k as int].1.map_values(|x: Seq<char>| (target_table()[k as int].0, x)).subrange(
                    0,
                    b as int,
                ) =~= expand_target(want@));
            },
            None => {
                assert(expand_target(want@) =~= Seq::<(Seq<char>, Seq<char>)>::empty());
                assert(before + expand_target(want@) =~= before);
            },
        }
        i = i + 1;
    }
    assert(string_views(names@).subrange(0, names@.len() as int) =~= string_views(names@));
    out
}

/// The categories a cleanup run looks for: those asked for, or every
/// category when none is named.
pub fn requested_targets(target: Vec<String>) -> (names: Vec<String>)
    ensures
        target@.len() == 0 ==> string_views(names@) == category_names(),
        target@.len() > 0 ==> names@ == target@,
{
    if target.len() > 0 {
        return target;
    }
    let defaults = default_target_names();
    let mut names: Vec<String> = Vec::new();
    let mut k: usize = 0;
    while k < defaults.len()
        invariant
            k <= defaults@.len(),
            str_views(defaults@) == category_names(),
            string_views(names@) == category_names().subrange(0, k as int),
        decreases defaults.len() - k,
    {
        let ghost before = names@;
        let owned = defaults[k].to_owned();
        assert(str_views(defaults@)[k as int] == defaults@[k as int]@);
        names.push(owned);
        assert(string_views(names@) =~= string_views(before).push(owned@));
        k = k + 1;
        assert(string_views(names@) =~= category_names().subrange(0, k as int));
    }
    assert(category_names().subrange(0, k as int) =~= category_names());
    names
}

/// A cleanup candidate: a target directory with the size of what it holds.
#[derive(Debug, Clone)]
pub struct CleanupHit {
    pub category: String,
    pub path: String,
    pub bytes: u64,
    pub files: u64,
}

/// Totals of one category.
#[derive(Debug, Clone)]
pub struct CategorySummary {
    pub category: String,
    pub paths: u64,
    pub bytes: u64,
    pub files: u64,
}

/// How destructive applying a cleanup is.
#[derive(Debug, Clone, Copy, PartialEq, Eq, Structural)]
pub enum ApplyMode {
    /// Remove each directory permanently.
    Delete,
    /// Move each directory to the trash so it can be restored.
    Trash,
}

// ---------------------------------------------------------------------
// Summaries
// ---------------------------------------------------------------------

/// Hits among the first `k` in category `c`.
pub open spec fn cat_count(hits: Seq<CleanupHit>, c: Seq<char>, k: int) -> int
    decreases k,
{
    if k <= 0 {
        0
    } else {
        cat_count(hits, c, k - 1) + if hits[k - 1].category@ == c {
            1int
        } else {
            0int
        }
    }
}

/// Bytes of the hits among the first `k` in category `c`.
pub open spec fn cat_bytes(hits: Seq<CleanupHit>, c: Seq<char>, k: int) -> int
    decreases k,
{
    if k <= 0 {
        0
    } else {
        cat_bytes(hits, c, k - 1) + if hits[k - 1].category@ == c {
            hits[k - 1].bytes as int
        } else {
            0int
        }
    }
}

/// Files of the hits among the first `k` in category `c`.
pub open spec fn cat_files(hits: Seq<CleanupHit>, c: Seq<char>, k: int) -> int
    decreases k,
{
    if k <= 0 {
        0
    } else {
        cat_files(hits, c, k - 1) + if hits[k - 1].category@ == c {
            hits[k - 1].files as int
        } else {
            0int
        }
    }
}

/// Bytes of the first `k` hits.
pub open spec fn all_bytes(hits: Seq<CleanupHit>, k: int) -> int
    decreases k,
{
    if k <= 0 {
        0
    } else {
        all_bytes(hits, k - 1) + hits[k - 1].bytes
    }
}

/// Files of the first `k` hits.
pub open spec fn all_files(hits: Seq<CleanupHit>, k: int) -> int
    decreases k,
{
    if k <= 0 {
        0
    } else {
        all_files(hits, k - 1) + hits[k - 1].files
    }
}

/// `s` is the exact total of its category among the first `k` hits.
pub open spec fn totals_of(hits: Seq<CleanupHit>, s: CategorySummary, k: int) -> bool {
    &&& cat_count(hits, s.category@, k) > 0
    &&& s.paths == cat_count(hits, s.category@, k)
    &&& s.bytes == cat_bytes(hits, s.category@, k)
    &&& s.files == cat_files(hits, s.category@, k)
}

/// `a` is listed before `b`: more bytes first, then category name.
pub open spec fn ranks_before(a: CategorySummary, b: CategorySummary) -> bool {
    a.bytes > b.bytes || (a.bytes == b.bytes && lex_lt(a.category@, b.category@))
}

/// Some summary in `s[..i]` is for category `c`.
pub open spec fn has_category_upto(s: Seq<CategorySummary>, c: Seq<char>, i: int) -> bool {
    exists|j: int| 0 <= j < i && j < s.len() && s[j].category@ == c
}

/// Some summary in `s` is for category `c`.
pub open spec fn has_category(s: Seq<CategorySummary>, c: Seq<char>) -> bool {
    has_category_upto(s, c, s.len() as int)
}

/// `out` holds the totals of every category among the first `k` hits,
/// once each.
pub open spec fn groups_of(hits: Seq<CleanupHit>, out: Seq<CategorySummary>, k: int) -> bool {
    &&& forall|j: int| 0 <= j < out.len() ==> totals_of(hits, #[trigger] out[j], k)
    &&& forall|j: int, l: int| 0 <= j < l < out.len() ==> (#[trigger] out[j]).category@ != (#[trigger] out[l]).category@
    &&& forall|i: int| 0 <= i < k ==> #[trigger] has_category(out, hits[i].category@)
}

proof fn lemma_cat_bounded(hits: Seq<CleanupHit>, c: Seq<char>, k: int)
    ensures
        0 <= cat_count(hits, c, k) <= (if k < 0 { 0 } else { k }),
        0 <= cat_bytes(hits, c, k) <= all_bytes(hits, k),
        0 <= cat_files(hits, c, k) <= all_files(hits, k),
    decreases k,
{
    if k > 0 {
        lemma_cat_bounded(hits, c, k - 1);
    }
}

proof fn lemma_cat_mono(hits: Seq<CleanupHit>, c: Seq<char>, a: int, b: int)
    requires
        0 <= a <= b,
    ensures
        cat_bytes(hits, c, a) <= cat_bytes(hits, c, b),
        cat_files(hits, c, a) <= cat_files(hits, c, b),
    decreases b - a,
{
    if a < b {
        lemma_cat_mono(hits, c, a, b - 1);
    }
}

/// Within each category, the bytes and the files of the hits add up to no
/// more than `u64::MAX`.
pub open spec fn category_totals_fit(hits: Seq<CleanupHit>) -> bool {
    forall|c: Seq<char>|
        #![trigger cat_bytes(hits, c, hits.len() as int)]
        #![trigger cat_files(hits, c, hits.len() as int)]
        cat_bytes(hits, c, hits.len() as int) <= u64::MAX && cat_files(hits, c, hits.len() as int) <= u64::MAX
}

fn ranks_before_exec(a: &CategorySummary, b: &CategorySummary) -> (r: bool)
    ensures
        r == ranks_before(*a, *b),
{
    if a.bytes != b.bytes {
        return a.bytes > b.bytes;
    }
    let x = chars_of(a.category.as_str());
    let y = chars_of(b.category.as_str());
    lex_less(x.as_slice(), y.as_slice())
}

/// Totals per category, largest `bytes` first; equal totals in category
/// name order.
pub fn summarise(hits: &[CleanupHit]) -> (out: Vec<CategorySummary>)
    requires
        category_totals_fit(hits@),
    ensures
        groups_of(hits@, out@, hits@.len() as int),
        forall|j: int, l: int| 0 <= j < l < out@.len() ==> ranks_before(#[trigger] out@[j], #[trigger] out@[l]),
{
    let ghost hv = hits@;
    let mut acc: Vec<CategorySummary> = Vec::new();
    let mut i: usize = 0;
    while i < hits.len()
        invariant
            i <= hv.len(),
            hv == hits@,
            category_totals_fit(hv),
            groups_of(hv, acc@, i as int),
        decreases hits.len() - i,
    {
        let h = &hits[i];
        let at = find_category(&acc, h.category.as_str());
        proof {
            lemma_cat_bounded(hv, h.category@, i as int + 1);
            lemma_cat_mono(hv, h.category@, i as int + 1, hv.len() as int);
            assert(cat_bytes(hv, h.category@, hv.len() as int) <= u64::MAX);
            assert(cat_files(hv, h.category@, hv.len() as int) <= u64::MAX);
        }
        let ghost before = acc@;
        match at {
            Some(j) => {
                let old = &acc[j];
                let updated = CategorySummary {
                    category: old.category.clone(),
                    paths: old.paths + 1,
                    bytes: old.bytes + h.bytes,
                    files: old.files + h.files,
                };
                acc.set(j, updated);
                proof {
                    assert forall|l: int| 0 <= l < acc@.len() implies totals_of(hv, #[trigger] acc@[l], i + 1) by {
                        if l != j {
                            assert(acc@[l] == before[l]);
                            assert(before[l].category@ != before[j as int].category@);
                        }
                    }
                    assert forall|a: int, b: int| 0 <= a < b < acc@.len() implies (#[trigger] acc@[a]).category@
                        != (#[trigger] acc@[b]).category@ by {
                        assert(before[a].category@ != before[b].category@);
                    }
                    assert forall|x: int| 0 <= x < i + 1 implies #[trigger] has_category(acc@, hv[x].category@) by {
                        if x < i {
                            assert(has_category(before, hv[x].category@));
                            let l = choose|l: int| 0 <= l < before.len() && l < before.len() && before[l].category@ == hv[x].category@;
                            assert(acc@[l].category@ == hv[x].category@);
                        } else {
                            assert(acc@[j as int].category@ == hv[x].category@);
                        }
                    }
                }
            },
            None => {
                let fresh = CategorySummary {
                    category: h.category.clone(),
                    paths: 1,
                    bytes: h.bytes,
                    files: h.files,
                };
                acc.push(fresh);
                proof {
                    assert forall|x: int| 0 <= x < i implies (#[trigger] hv[x]).category@ != h.category@ by {
                        assert(has_category(before, hv[x].category@));
                        let l = choose|l: int| 0 <= l < before.len() && l < before.len() && before[l].category@ == hv[x].category@;
                    }
                    assert(cat_count(hv, h.category@, i as int) == 0) by {
                        lemma_cat_absent(hv, h.category@, i as int);
                    }
                    assert(cat_bytes(hv, h.category@, i as int) == 0) by {
                        lemma_cat_absent(hv, h.category@, i as int);
                    }
                    assert(cat_files(hv, h.category@, i as int) == 0) by {
                        lemma_cat_absent(hv, h.category@, i as int);
                    }
                    assert forall|l: int| 0 <= l < acc@.len() implies totals_of(hv, #[trigger] acc@[l], i + 1) by {
                        if l < before.len() {
                            assert(acc@[l] == before[l]);
                        }
                    }
                    assert forall|x: int| 0 <= x < i + 1 implies #[trigger] has_category(acc@, hv[x].category@) by {
                        if x < i {
                            assert(has_category(before, hv[x].category@));
                            let l = choose|l: int| 0 <= l < before.len() && l < before.len() && before[l].category@ == hv[x].category@;
                            assert(acc@[l].category@ == hv[x].category@);
                        } else {
                            assert(acc@[before.len() as int].category@ == hv[x].category@);
                        }
                    }
                }
            },
        }
        i = i + 1;
    }
    sort_summaries(acc, Ghost(hv))
}

/// Position of the summary for a category, if there is one.
fn find_category(acc: &Vec<CategorySummary>, c: &str) -> (r: Option<usize>)
    ensures
        match r {
            Some(j) => j < acc@.len() && acc@[j as int].category@ == c@,
            None => forall|l: int| 0 <= l < acc@.len() ==> (#[trigger] acc@[l]).category@ != c@,
        },
{
    let hc = chars_of(c);
    let mut j: usize = 0;
    while j < acc.len()
        invariant
            j <= acc@.len(),
            hc@ == c@,
            forall|l: int| 0 <= l < j ==> (#[trigger] acc@[l]).category@ != c@,
        decreases acc.len() - j,
    {
        let ac = chars_of(acc[j].category.as_str());
        if crate::text::chars_eq(ac.as_slice(), hc.as_slice()) {
            return Some(j);
        }
        j = j + 1;
    }
    None
}

proof fn lemma_cat_absent(hits: Seq<CleanupHit>, c: Seq<char>, k: int)
    requires
        0 <= k <= hits.len(),
        forall|i: int| 0 <= i < k ==> (#[trigger] hits[i]).category@ != c,
    ensures
        cat_count(hits, c, k) == 0,
        cat_bytes(hits, c, k) == 0,
        cat_files(hits, c, k) == 0,
    decreases k,
{
    if k > 0 {
        lemma_cat_absent(hits, c, k - 1);
    }
}

#[verifier::opaque]
spec fn all_totals(hv: Seq<CleanupHit>, s: Seq<CategorySummary>, n: int) -> bool {
    forall|j: int| 0 <= j < s.len() ==> totals_of(hv, #[trigger] s[j], n)
}

#[verifier::opaque]
spec fn distinct_cats(s: Seq<CategorySummary>) -> bool {
    forall|j: int, l: int| 0 <= j < l < s.len() ==> (#[trigger] s[j]).category@ != (#[trigger] s[l]).category@
}

#[verifier::opaque]
spec fn ranked(s: Seq<CategorySummary>) -> bool {
    forall|j: int, l: int| 0 <= j < l < s.len() ==> ranks_before(#[trigger] s[j], #[trigger] s[l])
}

spec fn covers(hv: Seq<CleanupHit>, s: Seq<CategorySummary>, n: int) -> bool {
    forall|i: int| 0 <= i < n ==> #[trigger] has_category(s, hv[i].category@)
}

/// `out` holds exactly the categories of `acc[..i]`.
#[verifier::opaque]
spec fn placed_from(out: Seq<CategorySummary>, acc: Seq<CategorySummary>, i: int) -> bool {
    &&& forall|j: int| 0 <= j < out.len() ==> #[trigger] has_category_upto(acc, out[j].category@, i)
    &&& forall|a: int| 0 <= a < i ==> #[trigger] has_category(out, acc[a].category@)
}

proof fn lemma_placed_covers(hv: Seq<CleanupHit>, out: Seq<CategorySummary>, acc: Seq<CategorySummary>, n: int)
    requires
        covers(hv, acc, n),
        placed_from(out, acc, acc.len() as int),
    ensures
        covers(hv, out, n),
{
        reveal(placed_from);
    assert forall|x: int| 0 <= x < n implies #[trigger] has_category(out, hv[x].category@) by {
        assert(has_category(acc, hv[x].category@));
        let a = choose|a: int| 0 <= a < acc.len() && a < acc.len() && acc[a].category@ == hv[x].category@;
        assert(has_category(out, acc[a].category@));
        let j = choose|j: int| 0 <= j < out.len() && j < out.len() && out[j].category@ == acc[a].category@;
        assert(out[j].category@ == hv[x].category@);
    }
}

/// One insertion step keeps every invariant of the sort.
proof fn lemma_insert_step(
    hv: Seq<CleanupHit>,
    n: int,
    acc: Seq<CategorySummary>,
    i: int,
    before: Seq<CategorySummary>,
    item: CategorySummary,
    pos: int,
)
    requires
        0 <= i < acc.len(),
        0 <= pos <= before.len(),
        all_totals(hv, acc, n),
        distinct_cats(acc),
        all_totals(hv, before, n),
        distinct_cats(before),
        ranked(before),
        placed_from(before, acc, i),
        item.category@ == acc[i].category@,
        item.paths == acc[i].paths,
        item.bytes == acc[i].bytes,
        item.files == acc[i].files,
        forall|k: int| 0 <= k < pos ==> ranks_before(#[trigger] before[k], item),
        pos < before.len() ==> !ranks_before(before[pos], item),
    ensures
        all_totals(hv, before.insert(pos, item), n),
        distinct_cats(before.insert(pos, item)),
        ranked(before.insert(pos, item)),
        placed_from(before.insert(pos, item), acc, i + 1),
{
    reveal(all_totals);
    assert(totals_of(hv, acc[i], n));
    lemma_new_category(before, acc, i);
    lemma_insert_totals(before, item, pos, hv, n);
    lemma_insert_distinct(before, item, pos);
    lemma_insert_ranked(before, item, pos);
    lemma_insert_origin(before, item, pos, acc, i);
}

/// Orders category totals by `ranks_before` (insertion sort).
fn sort_summaries(acc: Vec<CategorySummary>, Ghost(hv): Ghost<Seq<CleanupHit>>) -> (out: Vec<CategorySummary>)
    requires
        groups_of(hv, acc@, hv.len() as int),
    ensures
        groups_of(hv, out@, hv.len() as int),
        forall|j: int, l: int| 0 <= j < l < out@.len() ==> ranks_before(#[trigger] out@[j], #[trigger] out@[l]),
{
    let ghost n = hv.len() as int;
    let mut out: Vec<CategorySummary> = Vec::new();
    let mut i: usize = 0;
    proof {
        reveal(all_totals);
        reveal(distinct_cats);
        reveal(ranked);
                reveal(placed_from);
    }
    while i < acc.len()
        invariant
            i <= acc@.len(),
            all_totals(hv, acc@, n),
            distinct_cats(acc@),
            covers(hv, acc@, n),
            all_totals(hv, out@, n),
            distinct_cats(out@),
            ranked(out@),
            placed_from(out@, acc@, i as int),
        decreases acc.len() - i,
    {
        let x = &acc[i];
        let mut pos: usize = 0;
        while pos < out.len() && ranks_before_exec(&out[pos], x)
            invariant
                pos <= out@.len(),
                forall|k: int| 0 <= k < pos ==> ranks_before(#[trigger] out@[k], *x),
            decreases out.len() - pos,
        {
            pos = pos + 1;
        }
        let item = CategorySummary { category: x.category.clone(), paths: x.paths, bytes: x.bytes, files: x.files };
        let ghost before = out@;
        out.insert(pos, item);
        proof {
            lemma_insert_step(hv, n, acc@, i as int, before, item, pos as int);
        }
        i = i + 1;
    }
    proof {
        lemma_placed_covers(hv, out@, acc@, n);
        reveal(all_totals);
        reveal(distinct_cats);
        reveal(ranked);
                reveal(placed_from);
    }
    out
}

/// The next category to place differs from every one placed so far.
proof fn lemma_new_category(before: Seq<CategorySummary>, acc: Seq<CategorySummary>, i: int)
    requires
        0 <= i < acc.len(),
        distinct_cats(acc),
        placed_from(before, acc, i),
    ensures
        forall|j: int| 0 <= j < before.len() ==> (#[trigger] before[j]).category@ != acc[i].category@,
{
    reveal(distinct_cats);
    reveal(placed_from);
    assert forall|j: int| 0 <= j < before.len() implies (#[trigger] before[j]).category@ != acc[i].category@ by {
        assert(has_category_upto(acc, before[j].category@, i));
        let a = choose|a: int| 0 <= a < i && a < acc.len() && acc[a].category@ == before[j].category@;
        assert(acc[a].category@ != acc[i].category@);
    }
}

proof fn lemma_insert_totals(before: Seq<CategorySummary>, item: CategorySummary, pos: int, hv: Seq<CleanupHit>, n: int)
    requires
        0 <= pos <= before.len(),
        totals_of(hv, item, n),
        all_totals(hv, before, n),
    ensures
        all_totals(hv, before.insert(pos, item), n),
{
    reveal(all_totals);
    let out = before.insert(pos, item);
    assert forall|j: int| 0 <= j < out.len() implies totals_of(hv, #[trigger] out[j], n) by {
        if j < pos {
            assert(out[j] == before[j]);
        } else if j > pos {
            assert(out[j] == before[j - 1]);
        }
    }
}

proof fn lemma_insert_distinct(before: Seq<CategorySummary>, item: CategorySummary, pos: int)
    requires
        0 <= pos <= before.len(),
        forall|j: int| 0 <= j < before.len() ==> (#[trigger] before[j]).category@ != item.category@,
        distinct_cats(before),
    ensures
        distinct_cats(before.insert(pos, item)),
{
    reveal(distinct_cats);
    let out = before.insert(pos, item);
    assert forall|a: int, b: int| 0 <= a < b < out.len() implies (#[trigger] out[a]).category@ != (#[trigger] out[b]).category@ by {
        if b < pos {
            assert(out[a] == before[a] && out[b] == before[b]);
        } else if a > pos {
            assert(out[a] == before[a - 1] && out[b] == before[b - 1]);
        } else if a == pos {
            assert(out[b] == before[b - 1]);
        } else if b == pos {
            assert(out[a] == before[a]);
        } else {
            assert(out[a] == before[a] && out[b] == before[b - 1]);
        }
    }
}

proof fn lemma_insert_ranked(before: Seq<CategorySummary>, item: CategorySummary, pos: int)
    requires
        0 <= pos <= before.len(),
        forall|j: int| 0 <= j < before.len() ==> (#[trigger] before[j]).category@ != item.category@,
        forall|k: int| 0 <= k < pos ==> ranks_before(#[trigger] before[k], item),
        pos < before.len() ==> !ranks_before(before[pos], item),
        ranked(before),
    ensures
        ranked(before.insert(pos, item)),
{
    reveal(ranked);
    let out = before.insert(pos, item);
    if pos < before.len() {
        lemma_rank_total(item, before, pos);
    }
    assert forall|a: int, b: int| 0 <= a < b < out.len() implies ranks_before(#[trigger] out[a], #[trigger] out[b]) by {
        if b < pos {
            assert(out[a] == before[a] && out[b] == before[b]);
        } else if a > pos {
            assert(out[a] == before[a - 1] && out[b] == before[b - 1]);
        } else if a == pos {
            assert(out[b] == before[b - 1]);
            if b - 1 > pos {
                lemma_rank_transitive(item, before[pos], before[b - 1]);
            }
        } else if b == pos {
            assert(out[a] == before[a]);
        } else {
            assert(out[a] == before[a] && out[b] == before[b - 1]);
        }
    }
}

proof fn lemma_insert_origin(
    before: Seq<CategorySummary>,
    item: CategorySummary,
    pos: int,
    acc: Seq<CategorySummary>,
    i: int,
)
    requires
        0 <= pos <= before.len(),
        0 <= i < acc.len(),
        item.category@ == acc[i].category@,
        placed_from(before, acc, i),
    ensures
        placed_from(before.insert(pos, item), acc, i + 1),
{
    reveal(placed_from);
    let out = before.insert(pos, item);
    assert forall|j: int| 0 <= j < out.len() implies #[trigger] has_category_upto(acc, out[j].category@, i + 1) by {
        if j < pos {
            assert(out[j] == before[j]);
            assert(has_category_upto(acc, before[j].category@, i));
            let a = choose|a: int| 0 <= a < i && a < acc.len() && acc[a].category@ == before[j].category@;
            assert(acc[a].category@ == out[j].category@);
        } else if j > pos {
            assert(out[j] == before[j - 1]);
            assert(has_category_upto(acc, before[j - 1].category@, i));
            let a = choose|a: int| 0 <= a < i && a < acc.len() && acc[a].category@ == before[j - 1].category@;
            assert(acc[a].category@ == out[j].category@);
        } else {
            assert(acc[i].category@ == out[j].category@);
        }
    }
    assert forall|a: int| 0 <= a < i + 1 implies #[trigger] has_category(out, acc[a].category@) by {
        if a < i {
            assert(has_category(before, acc[a].category@));
            let j = choose|j: int| 0 <= j < before.len() && j < before.len() && before[j].category@ == acc[a].category@;
            if j < pos {
                assert(out[j] == before[j]);
                assert(out[j].category@ == acc[a].category@);
            } else {
                assert(out[j + 1] == before[j]);
                assert(out[j + 1].category@ == acc[a].category@);
            }
        } else {
            assert(out[pos].category@ == acc[a].category@);
        }
    }
}

/// Where `item` goes, everything before ranks before it and it ranks
/// before the rest (categories differing).
proof fn lemma_rank_total(item: CategorySummary, before: Seq<CategorySummary>, pos: int)
    requires
        0 <= pos <= before.len(),
        forall|k: int| 0 <= k < pos ==> ranks_before(#[trigger] before[k], item),
        pos < before.len() ==> !ranks_before(before[pos], item),
        pos < before.len() ==> before[pos].category@ != item.category@,
    ensures
        pos < before.len() ==> ranks_before(item, before[pos]),
{
    if pos < before.len() {
        crate::text::lemma_lex_total(before[pos].category@, item.category@);
    }
}

proof fn lemma_rank_transitive(a: CategorySummary, b: CategorySummary, c: CategorySummary)
    ensures
        ranks_before(a, b) && ranks_before(b, c) ==> ranks_before(a, c),
{
    crate::text::lemma_lex_transitive(a.category@, b.category@, c.category@);
}

// ---------------------------------------------------------------------
// Ranking what a snapshot query found
// ---------------------------------------------------------------------

/// Target directories `(path, basename)` that are not protected, in order.
pub open spec fn offered_dirs(rows: Seq<(String, String)>) -> Seq<(String, String)> {
    rows.filter(|r: (String, String)| !protected(r.0@))
}

/// Drops the protected target directories (package-manager stores, OS
/// caches, ...) from the `(path, basename)` rows a snapshot query found.
pub fn unprotected_dirs(rows: &[(String, String)]) -> (out: Vec<(String, String)>)
    ensures
        out@ == offered_dirs(rows@),
{
    let mut out: Vec<(String, String)> = Vec::new();
    let mut i: usize = 0;
    while i < rows.len()
        invariant
            i <= rows@.len(),
            out@ == rows@.subrange(0, i as int).filter(|r: (String, String)| !protected(r.0@)),
        decreases rows.len() - i,
    {
        let ghost pre = rows@.subrange(0, i as int);
        assert(rows@.subrange(0, i + 1) =~= pre.push(rows@[i as int]));
        proof {
            pre.lemma_filter_push(rows@[i as int], |r: (String, String)| !protected(r.0@));
        }
        if !is_protected(rows[i].0.as_str()) {
            out.push((rows[i].0.clone(), rows[i].1.clone()));
        }
        i = i + 1;
    }
    assert(rows@.subrange(0, rows@.len() as int) =~= rows@);
    out
}

/// Category of a directory basename: the last requested pair naming that
/// basename, or `"unknown"`.
pub open spec fn category_for(pairs: Seq<(Seq<char>, Seq<char>)>, name: Seq<char>) -> Seq<char>
    decreases pairs.len(),
{
    if pairs.len() == 0 {
        "unknown"@
    } else if pairs.last().1 == name {
        pairs.last().0
    } else {
        category_for(pairs.drop_last(), name)
    }
}

fn category_lookup(pairs: &[(&'static str, &'static str)], name: &str) -> (c: String)
    ensures
        c@ == category_for(pair_views(pairs@), name@),
{
    let want = chars_of(name);
    let mut k: usize = pairs.len();
    assert(pair_views(pairs@).subrange(0, k as int) =~= pair_views(pairs@));
    while k > 0
        invariant
            k <= pairs@.len(),
            want@ == name@,
            category_for(pair_views(pairs@), name@) == category_for(pair_views(pairs@).subrange(0, k as int), name@),
        decreases k,
    {
        let ghost pre = pair_views(pairs@).subrange(0, k as int);
        assert(pre.drop_last() =~= pair_views(pairs@).subrange(0, k - 1));
        let base = chars_of(pairs[k - 1].1);
        if crate::text::chars_eq(base.as_slice(), want.as_slice()) {
            return pairs[k - 1].0.to_owned();
        }
        k = k - 1;
    }
    "unknown".to_owned()
}

/// Cleanup hit made from a grouped query row `(path, basename, bytes, files)`.
pub open spec fn hit_from_row(
    pairs: Seq<(Seq<char>, Seq<char>)>,
    row: (String, String, i64, i64),
) -> (Seq<char>, Seq<char>, u64, u64) {
    (category_for(pairs, row.1@), row.0@, row.2 as u64, row.3 as u64)
}

pub open spec fn hit_view(h: CleanupHit) -> (Seq<char>, Seq<char>, u64, u64) {
    (h.category@, h.path@, h.bytes, h.files)
}

/// Row indices ordered largest byte count first; equal counts keep row order.
pub open spec fn rows_by_bytes(rows: Seq<(String, String, i64, i64)>) -> Seq<usize> {
    Seq::new(rows.len(), |i: int| ((rows[i].2 as u64) as i128, i as usize)).sort_by(key_desc_fn()).map_values(
        |p: (i128, usize)| p.1,
    )
}

/// Hits from grouped query rows: each categorised by its basename, the
/// largest first (a stable order), at most `limit` of them.
pub fn rank_hits(rows: &[(String, String, i64, i64)], pairs: &[(&'static str, &'static str)], limit: usize) -> (out: Vec<CleanupHit>)
    ensures
        out@.len() == if limit < rows@.len() { limit as int } else { rows@.len() as int },
        forall|j: int|
            0 <= j < out@.len() ==> #[trigger] hit_view(out@[j]) == hit_from_row(
                pair_views(pairs@),
                rows@[rows_by_bytes(rows@)[j] as int],
            ),
{
    let n = rows.len();
    let mut keys: Vec<(i128, usize)> = Vec::new();
    let mut i: usize = 0;
    while i < n
        invariant
            i <= n,
            n == rows@.len(),
            keys@ == Seq::new(i as nat, |k: int| ((rows@[k].2 as u64) as i128, k as usize)),
        decreases n - i,
    {
        keys.push(((rows[i].2 as u64) as i128, i));
        i = i + 1;
        assert(keys@ =~= Seq::new(i as nat, |k: int| ((rows@[k].2 as u64) as i128, k as usize)));
    }
    let sorted = sort_key_desc(keys);
    proof {
        crate::sorting::lemma_key_desc_total();
        keys@.lemma_sort_by_ensures(key_desc_fn());
        vstd::seq_lib::to_multiset_len(keys@);
        vstd::seq_lib::to_multiset_len(sorted@);
        assert forall|j: int| 0 <= j < sorted@.len() implies (#[trigger] sorted@[j]).1 < n by {
            assert(sorted@.contains(sorted@[j]));
            assert(keys@.contains(sorted@[j]));
        }
    }
    let take = if limit < n { limit } else { n };
    let mut out: Vec<CleanupHit> = Vec::new();
    let mut k: usize = 0;
    while k < take
        invariant
            k <= take,
            take <= n,
            n == rows@.len(),
            sorted@.len() == n,
            sorted@.map_values(|p: (i128, usize)| p.1) == rows_by_bytes(rows@),
            forall|j: int| 0 <= j < sorted@.len() ==> (#[trigger] sorted@[j]).1 < n,
            out@.len() == k,
            forall|j: int|
                0 <= j < k ==> #[trigger] hit_view(out@[j]) == hit_from_row(
                    pair_views(pairs@),
                    rows@[rows_by_bytes(rows@)[j] as int],
                ),
        decreases take - k,
    {
        let idx = sorted[k].1;
        assert(rows_by_bytes(rows@)[k as int] == idx);
        let row = &rows[idx];
        let category = category_lookup(pairs, row.1.as_str());
        out.push(CleanupHit { category, path: row.0.clone(), bytes: row.2 as u64, files: row.3 as u64 });
        k = k + 1;
    }
    out
}

/// No directory handed to the size query is protected, and every
/// unprotected one is handed on.
pub proof fn law_protected_dirs_never_offered(rows: Seq<(String, String)>)
    ensures
        forall|i: int| 0 <= i < offered_dirs(rows).len() ==> !protected((#[trigger] offered_dirs(rows)[i]).0@),
        forall|i: int| 0 <= i < rows.len() && !protected(rows[i].0@) ==> #[trigger] offered_dirs(rows).contains(rows[i]),
{
    rows.filter_lemma(|r: (String, String)| !protected(r.0@));
}

/// Weight of a hit in one of the totals: 0 counts paths, 1 bytes, 2 files.
pub open spec fn weight(h: CleanupHit, which: int) -> int {
    if which == 0 {
        1
    } else if which == 1 {
        h.bytes as int
    } else {
        h.files as int
    }
}

/// Total weight of the hits among the first `k` in category `c`.
pub open spec fn cat_weight(hits: Seq<CleanupHit>, c: Seq<char>, k: int, which: int) -> int
    decreases k,
{
    if k <= 0 {
        0
    } else {
        cat_weight(hits, c, k - 1, which) + if hits[k - 1].category@ == c {
            weight(hits[k - 1], which)
        } else {
            0int
        }
    }
}

/// Total weight of the first `k` hits.
pub open spec fn all_weight(hits: Seq<CleanupHit>, k: int, which: int) -> int
    decreases k,
{
    if k <= 0 {
        0
    } else {
        all_weight(hits, k - 1, which) + weight(hits[k - 1], which)
    }
}

/// Sum over the first `m` summaries of their categories' weight among the
/// first `k` hits.
pub open spec fn cats_weight(hits: Seq<CleanupHit>, out: Seq<CategorySummary>, k: int, m: int, which: int) -> int
    decreases m,
{
    if m <= 0 {
        0
    } else {
        cats_weight(hits, out, k, m - 1, which) + cat_weight(hits, out[m - 1].category@, k, which)
    }
}

/// Sum of a field over the first `m` summaries: 0 paths, 1 bytes, 2 files.
pub open spec fn summary_total(out: Seq<CategorySummary>, m: int, which: int) -> int
    decreases m,
{
    if m <= 0 {
        0
    } else {
        summary_total(out, m - 1, which) + if which == 0 {
            out[m - 1].paths as int
        } else if which == 1 {
            out[m - 1].bytes as int
        } else {
            out[m - 1].files as int
        }
    }
}

proof fn lemma_cat_weight_named(hits: Seq<CleanupHit>, c: Seq<char>, k: int)
    ensures
        cat_weight(hits, c, k, 0) == cat_count(hits, c, k),
        cat_weight(hits, c, k, 1) == cat_bytes(hits, c, k),
        cat_weight(hits, c, k, 2) == cat_files(hits, c, k),
    decreases k,
{
    if k > 0 {
        lemma_cat_weight_named(hits, c, k - 1);
    }
}

proof fn lemma_all_weight_named(hits: Seq<CleanupHit>, k: int)
    ensures
        all_weight(hits, k, 0) == if k < 0 { 0 } else { k },
        all_weight(hits, k, 1) == all_bytes(hits, k),
        all_weight(hits, k, 2) == all_files(hits, k),
    decreases k,
{
    if k > 0 {
        lemma_all_weight_named(hits, k - 1);
    }
}

/// One more hit adds its weight to exactly the category that holds it.
proof fn lemma_cats_weight_step(hits: Seq<CleanupHit>, out: Seq<CategorySummary>, k: int, m: int, which: int)
    requires
        0 <= k,
        0 <= m <= out.len(),
        forall|j: int, l: int| 0 <= j < l < out.len() ==> (#[trigger] out[j]).category@ != (#[trigger] out[l]).category@,
    ensures
        cats_weight(hits, out, k + 1, m, which) == cats_weight(hits, out, k, m, which) + if has_category_upto(
            out,
            hits[k].category@,
            m,
        ) {
            weight(hits[k], which)
        } else {
            0int
        },
    decreases m,
{
    if m > 0 {
        lemma_cats_weight_step(hits, out, k, m - 1, which);
        if out[m - 1].category@ == hits[k].category@ {
            assert(has_category_upto(out, hits[k].category@, m));
            if has_category_upto(out, hits[k].category@, m - 1) {
                let j = choose|j: int| 0 <= j < m - 1 && j < out.len() && out[j].category@ == hits[k].category@;
                assert(out[j].category@ != out[m - 1].category@);
            }
        } else {
            if has_category_upto(out, hits[k].category@, m) {
                let j = choose|j: int| 0 <= j < m && j < out.len() && out[j].category@ == hits[k].category@;
                assert(has_category_upto(out, hits[k].category@, m - 1));
            }
        }
    }
}

proof fn lemma_cats_weight_zero(hits: Seq<CleanupHit>, out: Seq<CategorySummary>, m: int, which: int)
    ensures
        cats_weight(hits, out, 0, m, which) == 0,
    decreases m,
{
    if m > 0 {
        lemma_cats_weight_zero(hits, out, m - 1, which);
    }
}

/// Summed over distinct categories that cover the first `k` hits, the
/// category weights are the weight of those hits.
proof fn lemma_cats_weight_total(hits: Seq<CleanupHit>, out: Seq<CategorySummary>, k: int, which: int)
    requires
        0 <= k <= hits.len(),
        forall|j: int, l: int| 0 <= j < l < out.len() ==> (#[trigger] out[j]).category@ != (#[trigger] out[l]).category@,
        forall|i: int| 0 <= i < k ==> #[trigger] has_category(out, hits[i].category@),
    ensures
        cats_weight(hits, out, k, out.len() as int, which) == all_weight(hits, k, which),
    decreases k,
{
    if k == 0 {
        lemma_cats_weight_zero(hits, out, out.len() as int, which);
    } else {
        lemma_cats_weight_total(hits, out, k - 1, which);
        lemma_cats_weight_step(hits, out, k - 1, out.len() as int, which);
        assert(has_category(out, hits[k - 1].category@));
    }
}

proof fn lemma_summary_total_matches(hits: Seq<CleanupHit>, out: Seq<CategorySummary>, n: int, m: int, which: int)
    requires
        0 <= m <= out.len(),
        0 <= which <= 2,
        forall|j: int| 0 <= j < out.len() ==> totals_of(hits, #[trigger] out[j], n),
    ensures
        summary_total(out, m, which) == cats_weight(hits, out, n, m, which),
    decreases m,
{
    if m > 0 {
        lemma_summary_total_matches(hits, out, n, m - 1, which);
        assert(totals_of(hits, out[m - 1], n));
        lemma_cat_weight_named(hits, out[m - 1].category@, n);
    }
}

/// Summaries lose nothing: over all categories, paths add up to the
/// number of hits, and bytes and files to the hits' totals.
pub proof fn law_summary_conserves_totals(hits: Seq<CleanupHit>, out: Seq<CategorySummary>)
    requires
        groups_of(hits, out, hits.len() as int),
    ensures
        summary_total(out, out.len() as int, 0) == hits.len(),
        summary_total(out, out.len() as int, 1) == all_bytes(hits, hits.len() as int),
        summary_total(out, out.len() as int, 2) == all_files(hits, hits.len() as int),
{
    let n = hits.len() as int;
    lemma_all_weight_named(hits, n);
    lemma_cats_weight_total(hits, out, n, 0);
    lemma_cats_weight_total(hits, out, n, 1);
    lemma_cats_weight_total(hits, out, n, 2);
    lemma_summary_total_matches(hits, out, n, out.len() as int, 0);
    lemma_summary_total_matches(hits, out, n, out.len() as int, 1);
    lemma_summary_total_matches(hits, out, n, out.len() as int, 2);
}

/// The protected paths are exactly those that run through a Rust, Node
/// or Python package store, an OS cache or application-data directory, or
/// an editor's extension directory: a path containing any of these pieces
/// is protected, and a protected path contains one of them.
pub proof fn law_stores_and_caches_are_protected(path: Seq<char>)
    ensures
        contains(path, "/.cargo/registry/"@) ==> protected(path),
        contains(path, "/.cargo/git/"@) ==> protected(path),
        contains(path, "/.rustup/"@) ==> protected(path),
        contains(path, "/.npm/"@) ==> protected(path),
        contains(path, "/.pnpm-store/"@) ==> protected(path),
        contains(path, "/.yarn/cache/"@) ==> protected(path),
        contains(path, "/site-packages/"@) ==> protected(path),
        contains(path, "/.cache/pip/"@) ==> protected(path),
        contains(path, "/.cache/uv/"@) ==> protected(path),
        contains(path, "/Library/Caches/"@) ==> protected(path),
        contains(path, "/Library/Group Containers/"@) ==> protected(path),
        contains(path, "/Library/Application Support/"@) ==> protected(path),
        contains(path, "/.vscode/extensions/"@) ==> protected(path),
        contains(path, "/.windsurf/extensions/"@) ==> protected(path),
        contains(path, "/.antigravity/"@) ==> protected(path),
        protected(path) ==> (
            contains(path, "/.cargo/registry/"@) ||
            contains(path, "/.cargo/git/"@) ||
            contains(path, "/.rustup/"@) ||
            contains(path, "/.npm/"@) ||
            contains(path, "/.pnpm-store/"@) ||
            contains(path, "/.yarn/cache/"@) ||
            contains(path, "/site-packages/"@) ||
            contains(path, "/.cache/pip/"@) ||
            contains(path, "/.cache/uv/"@) ||
            contains(path, "/Library/Caches/"@) ||
            contains(path, "/Library/Group Containers/"@) ||
            contains(path, "/Library/Application Support/"@) ||
            contains(path, "/.vscode/extensions/"@) ||
            contains(path, "/.windsurf/extensions/"@) ||
            contains(path, "/.antigravity/"@)
        ),
{
    assert(protected_pieces().len() == 15);
    assert(protected_pieces()[0] == "/.cargo/registry/"@);
    assert(protected_pieces()[1] == "/.cargo/git/"@);
    assert(protected_pieces()[2] == "/.rustup/"@);
    assert(protected_pieces()[3] == "/.npm/"@);
    assert(protected_pieces()[4] == "/.pnpm-store/"@);
    assert(protected_pieces()[5] == "/.yarn/cache/"@);
    assert(protected_pieces()[6] == "/site-packages/"@);
    assert(protected_pieces()[7] == "/.cache/pip/"@);
    assert(protected_pieces()[8] == "/.cache/uv/"@);
    assert(protected_pieces()[9] == "/Library/Caches/"@);
    assert(protected_pieces()[10] == "/Library/Group Containers/"@);
    assert(protected_pieces()[11] == "/Library/Application Support/"@);
    assert(protected_pieces()[12] == "/.vscode/extensions/"@);
    assert(protected_pieces()[13] == "/.windsurf/extensions/"@);
    assert(protected_pieces()[14] == "/.antigravity/"@);
    if protected(path) {
        let k = choose|k: int| 0 <= k < protected_pieces().len() && contains(path, #[trigger] protected_pieces()[k]);
    }
}

} // verus!
