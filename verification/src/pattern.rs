//! Shapes of directory size over time: `LogShaped` (big early growth that
//! levels off), `Burst` (a sudden late jump), `Stable`, `Declining`, and
//! `Unknown` (mixed, unclear, or too few samples).
//!
//! This module holds the integer side of the classifier: the stride
//! profile of a series (its largest step, where it happens, and the
//! median step) and the placement rule for a spike.

use vstd::prelude::*;
use vstd::string::*;

use crate::sorting::{ascending_fn, sort_ascending};

verus! {

/// Classification bucket.
#[derive(Debug, Clone, Copy, PartialEq, Eq, Structural)]
pub enum Pattern {
    LogShaped,
    Burst,
    Stable,
    Declining,
    Unknown,
}

pub open spec fn pattern_text(p: Pattern) -> Seq<char> {
    match p {
        Pattern::LogShaped => "log_shaped"@,
        Pattern::Burst => "burst"@,
        Pattern::Stable => "stable"@,
        Pattern::Declining => "declining"@,
        Pattern::Unknown => "unknown"@,
    }
}

impl Pattern {
    /// Lower-case JSON wire form (`"log_shaped"`, `"burst"`, ...).
    pub fn as_str(self) -> (s: &'static str)
        ensures
            s@ == pattern_text(self),
    {
        match self {
            Pattern::LogShaped => "log_shaped",
            Pattern::Burst => "burst",
            Pattern::Stable => "stable",
            Pattern::Declining => "declining",
            Pattern::Unknown => "unknown",
        }
    }
}

/// A spike counts as early when it sits in the first third of the strides
/// (index below `n_strides / FIRST_THIRD_DIV`, by integer division).
pub const FIRST_THIRD_DIV: usize = 3;

/// Fewest samples for any verdict other than `Unknown`.
pub const MIN_SAMPLES: usize = 3;

/// `LogShaped` if the spike sits in the first third of the strides,
/// `Burst` otherwise.
pub fn spike_pattern(spike_idx: usize, n_strides: usize) -> (p: Pattern)
    ensures
        p == if spike_idx < n_strides / 3 {
            Pattern::LogShaped
        } else {
            Pattern::Burst
        },
{
    let cutoff = n_strides / FIRST_THIRD_DIV;
    if spike_idx < cutoff {
        Pattern::LogShaped
    } else {
        Pattern::Burst
    }
}

/// Size of the step between samples `i` and `i + 1`, ignoring its sign.
pub open spec fn step(s: Seq<(i64, u64)>, i: int) -> u128 {
    let d = s[i + 1].1 as int - s[i].1 as int;
    (if d < 0 { -d } else { d }) as u128
}

/// Step sizes of a series (one fewer than the samples).
pub open spec fn steps(s: Seq<(i64, u64)>) -> Seq<u128> {
    Seq::new(if s.len() > 0 { (s.len() - 1) as nat } else { 0 }, |i: int| step(s, i))
}

/// Largest of the first `k` values (0 when `k` is 0).
pub open spec fn max_upto(v: Seq<u128>, k: int) -> u128
    decreases k,
{
    if k <= 0 {
        0
    } else if v[k - 1] >= max_upto(v, k - 1) {
        v[k - 1]
    } else {
        max_upto(v, k - 1)
    }
}

/// Index of the largest of the first `k` values; among equals the first
/// one, so the earliest spike wins (0 when `k` is 0).
pub open spec fn argmax_upto(v: Seq<u128>, k: int) -> int
    decreases k,
{
    if k <= 0 {
        0
    } else if v[k - 1] > max_upto(v, k - 1) {
        k - 1
    } else {
        argmax_upto(v, k - 1)
    }
}

/// What the classifier reads from the strides of a series.
#[derive(Debug, Clone, Copy, PartialEq, Eq, Structural)]
pub struct StrideProfile {
    /// Number of strides (samples minus one, or 0).
    pub n_strides: usize,
    /// Largest stride size.
    pub max_stride: u128,
    /// Index of the largest stride (the first one among equals).
    pub max_idx: usize,
    /// Lower and upper middle of the sorted stride sizes; equal when the
    /// count is odd, both 0 when there are no strides.
    pub median_lo: u128,
    pub median_hi: u128,
}

/// The stride profile the classifier works from.
pub open spec fn profile_of(s: Seq<(i64, u64)>) -> StrideProfile {
    let v = steps(s);
    let n = v.len();
    let sorted = v.sort_by(ascending_fn());
    let mid = n / 2;
    StrideProfile {
        n_strides: n as usize,
        max_stride: max_upto(v, n as int),
        max_idx: argmax_upto(v, n as int) as usize,
        median_lo: if n == 0 {
            0
        } else if n % 2 == 1 {
            sorted[mid as int]
        } else {
            sorted[mid - 1]
        },
        median_hi: if n == 0 {
            0
        } else {
            sorted[mid as int]
        },
    }
}

/// Stride profile of a series of `(timestamp, bytes)` samples, in the
/// given order.
pub fn stride_profile(samples: &[(i64, u64)]) -> (p: StrideProfile)
    ensures
        p == profile_of(samples@),
{
    let n = if samples.len() > 0 { samples.len() - 1 } else { 0 };
    let mut v: Vec<u128> = Vec::new();
    let mut max: u128 = 0;
    let mut idx: usize = 0;
    let mut i: usize = 0;
    while i < n
        invariant
            i <= n,
            n == steps(samples@).len(),
            v@ == steps(samples@).subrange(0, i as int),
            max == max_upto(steps(samples@), i as int),
            idx == argmax_upto(steps(samples@), i as int),
        decreases n - i,
    {
        let a = samples[i].1;
        let b = samples[i + 1].1;
        let d: u128 = if b >= a { (b - a) as u128 } else { (a - b) as u128 };
        assert(d == step(samples@, i as int));
        if d > max {
            max = d;
            idx = i;
        }
        v.push(d);
        i = i + 1;
        assert(v@ =~= steps(samples@).subrange(0, i as int));
    }
    assert(v@ =~= steps(samples@));
    let sorted = sort_ascending(v);
    proof {
        crate::sorting::lemma_ascending_total();
        steps(samples@).lemma_sort_by_ensures(ascending_fn());
        vstd::seq_lib::to_multiset_len(steps(samples@));
        vstd::seq_lib::to_multiset_len(sorted@);
    }
    let mid = n / 2;
    let (lo, hi) = if n == 0 {
        (0u128, 0u128)
    } else if n % 2 == 1 {
        (sorted[mid], sorted[mid])
    } else {
        (sorted[mid - 1], sorted[mid])
    };
    StrideProfile { n_strides: n, max_stride: max, max_idx: idx, median_lo: lo, median_hi: hi }
}

} // verus!
