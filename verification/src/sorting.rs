//! Verified insertion sorts used by the ranking code: keyed pairs in
//! descending key order (ties by ascending index, i.e. a stable sort), and
//! plain ascending magnitudes.

use vstd::prelude::*;
use vstd::relations::{sorted_by, total_ordering};
use vstd::seq_lib::{lemma_sorted_unique, to_multiset_build, to_multiset_insert};

verus! {

/// `a` comes no later than `b`: larger key first, then smaller index.
pub open spec fn key_desc(a: (i128, usize), b: (i128, usize)) -> bool {
    a.0 > b.0 || (a.0 == b.0 && a.1 <= b.1)
}

pub open spec fn key_desc_fn() -> spec_fn((i128, usize), (i128, usize)) -> bool {
    |a: (i128, usize), b: (i128, usize)| key_desc(a, b)
}

pub open spec fn ascending_fn() -> spec_fn(u128, u128) -> bool {
    |a: u128, b: u128| a <= b
}

pub proof fn lemma_key_desc_total()
    ensures
        total_ordering(key_desc_fn()),
{
}

pub proof fn lemma_ascending_total()
    ensures
        total_ordering(ascending_fn()),
{
}

fn comes_before(a: (i128, usize), b: (i128, usize)) -> (r: bool)
    ensures
        r == key_desc(a, b),
{
    a.0 > b.0 || (a.0 == b.0 && a.1 <= b.1)
}

/// Sorts keyed pairs, larger keys first; equal keys keep index order.
pub fn sort_key_desc(v: Vec<(i128, usize)>) -> (r: Vec<(i128, usize)>)
    ensures
        r@ == v@.sort_by(key_desc_fn()),
{
    let mut r: Vec<(i128, usize)> = Vec::new();
    let mut i: usize = 0;
    assert(v@.subrange(0, 0) =~= r@);
    while i < v.len()
        invariant
            i <= v@.len(),
            sorted_by(r@, key_desc_fn()),
            r@.to_multiset() == v@.subrange(0, i as int).to_multiset(),
        decreases v.len() - i,
    {
        let x = v[i];
        let mut pos: usize = 0;
        while pos < r.len() && comes_before(r[pos], x)
            invariant
                pos <= r@.len(),
                forall|k: int| 0 <= k < pos ==> key_desc(#[trigger] r@[k], x),
            decreases r.len() - pos,
        {
            pos = pos + 1;
        }
        let ghost before = r@;
        r.insert(pos, x);
        proof {
            assert(v@.subrange(0, i + 1) =~= v@.subrange(0, i as int).push(x));
            assert(r@ == before.insert(pos as int, x));
            to_multiset_insert(before, pos as int, x);
            to_multiset_build(v@.subrange(0, i as int), x);
            assert forall|a: int, b: int| 0 <= a < b < r@.len() implies #[trigger] key_desc_fn()(r@[a], r@[b]) by {
                if b < pos {
                    assert(key_desc_fn()(before[a], before[b]));
                } else if a > pos {
                    assert(key_desc_fn()(before[a - 1], before[b - 1]));
                } else if a == pos {
                    if pos < before.len() {
                        assert(!key_desc(before[pos as int], x));
                        assert(key_desc_fn()(before[pos as int], before[b - 1]));
                    }
                } else {
                    if b == pos {
                        assert(key_desc(before[a], x));
                    } else {
                        assert(key_desc_fn()(before[a], before[b - 1]));
                    }
                }
            }
        }
        i = i + 1;
    }
    proof {
        assert(v@.subrange(0, v@.len() as int) =~= v@);
        lemma_key_desc_total();
        v@.lemma_sort_by_ensures(key_desc_fn());
        lemma_sorted_unique(r@, v@.sort_by(key_desc_fn()), key_desc_fn());
    }
    r
}

/// Sorts magnitudes in ascending order.
pub fn sort_ascending(v: Vec<u128>) -> (r: Vec<u128>)
    ensures
        r@ == v@.sort_by(ascending_fn()),
{
    let mut r: Vec<u128> = Vec::new();
    let mut i: usize = 0;
    assert(v@.subrange(0, 0) =~= r@);
    while i < v.len()
        invariant
            i <= v@.len(),
            sorted_by(r@, ascending_fn()),
            r@.to_multiset() == v@.subrange(0, i as int).to_multiset(),
        decreases v.len() - i,
    {
        let x = v[i];
        let mut pos: usize = 0;
        while pos < r.len() && r[pos] <= x
            invariant
                pos <= r@.len(),
                forall|k: int| 0 <= k < pos ==> #[trigger] r@[k] <= x,
            decreases r.len() - pos,
        {
            pos = pos + 1;
        }
        let ghost before = r@;
        r.insert(pos, x);
        proof {
            assert(v@.subrange(0, i + 1) =~= v@.subrange(0, i as int).push(x));
            assert(r@ == before.insert(pos as int, x));
            to_multiset_insert(before, pos as int, x);
            to_multiset_build(v@.subrange(0, i as int), x);
            assert forall|a: int, b: int| 0 <= a < b < r@.len() implies #[trigger] ascending_fn()(r@[a], r@[b]) by {
                if b < pos {
                    assert(ascending_fn()(before[a], before[b]));
                } else if a > pos {
                    assert(ascending_fn()(before[a - 1], before[b - 1]));
                } else if a == pos {
                    if pos < before.len() {
                        assert(ascending_fn()(before[pos as int], before[b - 1]));
                    }
                } else {
                    if b != pos {
                        assert(ascending_fn()(before[a], before[b - 1]));
                    }
                }
            }
        }
        i = i + 1;
    }
    proof {
        assert(v@.subrange(0, v@.len() as int) =~= v@);
        lemma_ascending_total();
        v@.lemma_sort_by_ensures(ascending_fn());
        lemma_sorted_unique(r@, v@.sort_by(ascending_fn()), ascending_fn());
    }
    r
}

} // verus!
