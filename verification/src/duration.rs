//! Tiny duration parser. Accepts shapes like `30d`, `2w`, `6mo`, `1y`,
//! `48h`, `90m`. No mixed units; whole numbers only.

use vstd::prelude::*;
use vstd::string::*;

use crate::text::{all_digits, chars_of, digits_value, is_digit, slice_range, string_of, trim, trim_chars};

verus! {

/// Why a duration spec was rejected.
#[derive(Debug, Clone, PartialEq, Eq)]
pub enum DurationError {
    /// Nothing but whitespace.
    Empty,
    /// Only digits, no unit.
    MissingUnit,
    /// The numeric prefix is empty or does not fit in `i64`.
    InvalidNumber,
    /// The unit is none of s/m/h/d/w/mo/y; carries the unit text.
    UnknownUnit(String),
}

/// The meaning of a duration spec, before multiplication.
pub enum DurationSyntax {
    Parts(int, int),
    Empty,
    MissingUnit,
    InvalidNumber,
    UnknownUnit(Seq<char>),
}

/// Seconds per unit suffix.
pub open spec fn unit_seconds(u: Seq<char>) -> Option<int> {
    if u == "s"@ {
        Some(1)
    } else if u == "m"@ {
        Some(60)
    } else if u == "h"@ {
        Some(3600)
    } else if u == "d"@ {
        Some(86400)
    } else if u == "w"@ {
        Some(604800int)
    } else if u == "mo"@ {
        Some(2592000int)
    } else if u == "y"@ {
        Some(31536000int)
    } else {
        None
    }
}

/// Number of leading ASCII digits.
pub open spec fn digit_run(t: Seq<char>) -> nat
    decreases t.len(),
{
    if t.len() > 0 && is_digit(t[0]) {
        1 + digit_run(t.drop_first())
    } else {
        0
    }
}

/// How `parse_seconds` reads a spec: trim, split the digit prefix from the unit.
pub open spec fn duration_syntax(spec: Seq<char>) -> DurationSyntax {
    let t = trim(spec);
    let k = digit_run(t) as int;
    if t.len() == 0 {
        DurationSyntax::Empty
    } else if k == t.len() {
        DurationSyntax::MissingUnit
    } else if k == 0 || digits_value(t.subrange(0, k)) > i64::MAX {
        DurationSyntax::InvalidNumber
    } else {
        match unit_seconds(t.subrange(k, t.len() as int)) {
            Some(u) => DurationSyntax::Parts(digits_value(t.subrange(0, k)), u),
            None => DurationSyntax::UnknownUnit(t.subrange(k, t.len() as int)),
        }
    }
}

/// The result of `split_duration` agrees with the syntax reading.
pub open spec fn split_agrees(r: Result<(i64, i64), DurationError>, syn: DurationSyntax) -> bool {
    match (r, syn) {
        (Ok((n, u)), DurationSyntax::Parts(sn, su)) => n == sn && u == su,
        (Err(DurationError::Empty), DurationSyntax::Empty) => true,
        (Err(DurationError::MissingUnit), DurationSyntax::MissingUnit) => true,
        (Err(DurationError::InvalidNumber), DurationSyntax::InvalidNumber) => true,
        (Err(DurationError::UnknownUnit(s)), DurationSyntax::UnknownUnit(su)) => s@ == su,
        _ => false,
    }
}

/// The product of number and unit fits in `i64` (trivially true for rejected specs).
pub open spec fn duration_fits(spec: Seq<char>) -> bool {
    match duration_syntax(spec) {
        DurationSyntax::Parts(n, u) => n * u <= i64::MAX,
        _ => true,
    }
}

proof fn lemma_digit_run_prefix(t: Seq<char>, i: int)
    requires
        0 <= i <= t.len(),
        all_digits(t.subrange(0, i)),
        i == t.len() || !is_digit(t[i]),
    ensures
        digit_run(t) == i,
    decreases i,
{
    if i > 0 {
        assert(is_digit(t.subrange(0, i)[0]));
        let d = t.drop_first();
        assert forall|j: int| 0 <= j < i - 1 implies is_digit(#[trigger] d.subrange(0, i - 1)[j]) by {
            assert(d.subrange(0, i - 1)[j] == t.subrange(0, i)[j + 1]);
        }
        if i < t.len() {
            assert(d[i - 1] == t[i]);
        }
        lemma_digit_run_prefix(d, i - 1);
    }
}

/// Parses a run of ASCII digits into `i64`, `None` if it overflows.
pub fn parse_digits(s: &[char]) -> (r: Option<i64>)
    requires
        all_digits(s@),
    ensures
        match r {
            Some(v) => v == digits_value(s@),
            None => digits_value(s@) > i64::MAX,
        },
{
    let mut v: i64 = 0;
    let mut i: usize = 0;
    while i < s.len()
        invariant
            i <= s@.len(),
            all_digits(s@),
            v == digits_value(s@.subrange(0, i as int)),
        decreases s.len() - i,
    {
        let ghost pre = s@.subrange(0, i as int);
        let ghost nxt = s@.subrange(0, i + 1);
        assert(nxt.drop_last() =~= pre);
        assert(is_digit(s@[i as int]));
        let d = (s[i] as u32 - '0' as u32) as i64;
        proof {
            lemma_digits_value_monotone(s@, i as int + 1);
        }
        if v > (i64::MAX - d) / 10 {
            proof {
                lemma_digits_value_monotone(s@, s@.len() as int);
                lemma_digits_value_prefix_le(s@, i as int + 1);
            }
            return None;
        }
        v = v * 10 + d;
        i = i + 1;
    }
    assert(s@.subrange(0, s@.len() as int) =~= s@);
    Some(v)
}

pub(crate) proof fn lemma_digits_value_nonneg(s: Seq<char>)
    requires
        all_digits(s),
    ensures
        digits_value(s) >= 0,
    decreases s.len(),
{
    if s.len() > 0 {
        assert(all_digits(s.drop_last())) by {
            assert forall|j: int| 0 <= j < s.len() - 1 implies is_digit(#[trigger] s.drop_last()[j]) by {
                assert(s.drop_last()[j] == s[j]);
            }
        }
        assert(is_digit(s[s.len() - 1]));
        lemma_digits_value_nonneg(s.drop_last());
    }
}

proof fn lemma_digits_value_monotone(s: Seq<char>, k: int)
    requires
        all_digits(s),
        0 <= k <= s.len(),
    ensures
        digits_value(s.subrange(0, k)) >= 0,
{
    assert(all_digits(s.subrange(0, k))) by {
        assert forall|j: int| 0 <= j < k implies is_digit(#[trigger] s.subrange(0, k)[j]) by {
            assert(s.subrange(0, k)[j] == s[j]);
        }
    }
    lemma_digits_value_nonneg(s.subrange(0, k));
}

/// A longer digit prefix never has a smaller value.
proof fn lemma_digits_value_prefix_le(s: Seq<char>, k: int)
    requires
        all_digits(s),
        0 <= k <= s.len(),
    ensures
        digits_value(s.subrange(0, k)) <= digits_value(s),
    decreases s.len() - k,
{
    if k < s.len() {
        lemma_digits_value_prefix_le(s, k + 1);
        let p = s.subrange(0, k + 1);
        assert(p.drop_last() =~= s.subrange(0, k));
        assert(is_digit(p.last()));
        lemma_digits_value_monotone(s, k);
    } else {
        assert(s.subrange(0, k) =~= s);
    }
}

/// Index of the first character that is not an ASCII digit, if any.
fn first_non_digit(t: &[char]) -> (r: usize)
    ensures
        r <= t@.len(),
        all_digits(t@.subrange(0, r as int)),
        r == t@.len() || !is_digit(t@[r as int]),
{
    let mut i: usize = 0;
    while i < t.len() && '0' <= t[i] && t[i] <= '9'
        invariant
            i <= t@.len(),
            all_digits(t@.subrange(0, i as int)),
        decreases t.len() - i,
    {
        i = i + 1;
        assert forall|j: int| 0 <= j < i implies is_digit(#[trigger] t@.subrange(0, i as int)[j]) by {
            if j < i - 1 {
                assert(t@.subrange(0, i as int)[j] == t@.subrange(0, i - 1)[j]);
            }
        }
    }
    i
}

fn unit_of(u: &[char]) -> (r: Option<i64>)
    ensures
        match r {
            Some(v) => unit_seconds(u@) == Some(v as int),
            None => unit_seconds(u@) is None,
        },
{
    let us = string_of(u);
    let s = us.as_str();
    proof {
        reveal_strlit("s");
        reveal_strlit("m");
        reveal_strlit("h");
        reveal_strlit("d");
        reveal_strlit("w");
        reveal_strlit("mo");
        reveal_strlit("y");
    }
    if str_eq(s, "s") {
        Some(1)
    } else if str_eq(s, "m") {
        Some(60)
    } else if str_eq(s, "h") {
        Some(3600)
    } else if str_eq(s, "d") {
        Some(86400)
    } else if str_eq(s, "w") {
        Some(604800)
    } else if str_eq(s, "mo") {
        Some(2592000)
    } else if str_eq(s, "y") {
        Some(31536000)
    } else {
        None
    }
}

/// Equality of two string slices by content.
pub fn str_eq(a: &str, b: &str) -> (r: bool)
    ensures
        r == (a@ == b@),
{
    let x = chars_of(a);
    let y = chars_of(b);
    crate::text::chars_eq(x.as_slice(), y.as_slice())
}

/// Splits a duration spec into its number and the seconds per unit.
pub fn split_duration(spec: &str) -> (r: Result<(i64, i64), DurationError>)
    ensures
        split_agrees(r, duration_syntax(spec@)),
{
    let all = chars_of(spec);
    let t = trim_chars(all.as_slice());
    if t.len() == 0 {
        return Err(DurationError::Empty);
    }
    let k = first_non_digit(t.as_slice());
    proof {
        lemma_digit_run_prefix(t@, k as int);
    }
    if k == t.len() {
        return Err(DurationError::MissingUnit);
    }
    if k == 0 {
        return Err(DurationError::InvalidNumber);
    }
    let num = slice_range(t.as_slice(), 0, k);
    let n = match parse_digits(num.as_slice()) {
        Some(n) => n,
        None => {
            return Err(DurationError::InvalidNumber);
        },
    };
    let unit = slice_range(t.as_slice(), k, t.len());
    match unit_of(unit.as_slice()) {
        Some(u) => Ok((n, u)),
        None => Err(DurationError::UnknownUnit(string_of(unit.as_slice()))),
    }
}

/// Seconds denoted by a duration spec such as `30d`, `2w`, `6mo`, `1y`.
/// Surrounding whitespace is ignored.
pub fn parse_seconds(spec: &str) -> (r: Result<i64, DurationError>)
    requires
        duration_fits(spec@),
    ensures
        match r {
            Ok(v) => duration_syntax(spec@) matches DurationSyntax::Parts(n, u) && v == n * u,
            Err(e) => split_agrees(Err(e), duration_syntax(spec@)),
        },
{
    match split_duration(spec) {
        Ok((n, u)) => {
            assert(n * u <= i64::MAX);
            assert(n >= 0 && u > 0) by {
                lemma_digits_value_parts_nonneg(spec@);
            }
            Ok(n * u)
        },
        Err(e) => Err(e),
    }
}

proof fn lemma_digits_value_parts_nonneg(spec: Seq<char>)
    ensures
        duration_syntax(spec) matches DurationSyntax::Parts(n, u) ==> n >= 0 && u > 0,
{
    let t = trim(spec);
    let k = digit_run(t) as int;
    if duration_syntax(spec) is Parts {
        lemma_digit_run_all(t);
        lemma_digits_value_nonneg(t.subrange(0, k));
    }
}

proof fn lemma_digit_run_all(t: Seq<char>)
    ensures
        digit_run(t) <= t.len(),
        all_digits(t.subrange(0, digit_run(t) as int)),
    decreases t.len(),
{
    if t.len() > 0 && is_digit(t[0]) {
        let d = t.drop_first();
        lemma_digit_run_all(d);
        let k = digit_run(t) as int;
        assert forall|j: int| 0 <= j < k implies is_digit(#[trigger] t.subrange(0, k)[j]) by {
            if j > 0 {
                assert(t.subrange(0, k)[j] == d.subrange(0, k - 1)[j - 1]);
            }
        }
    } else {
        assert forall|j: int| 0 <= j < 0 implies is_digit(#[trigger] t.subrange(0, 0)[j]) by {}
    }
}

} // verus!
