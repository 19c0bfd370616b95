//! SQL `LIKE` matching: `%` matches any run of characters, `_` exactly one,
//! every other character itself; the pattern is anchored at both ends.

use vstd::prelude::*;

use crate::text::{find_from, first_occurrence_from, occurs_at, starts_with, ends_with, starts_with_chars, ends_with_chars, slice_range};

verus! {

/// SQL `LIKE` semantics.
pub open spec fn like(s: Seq<char>, p: Seq<char>) -> bool
    decreases p.len(), s.len(),
{
    if p.len() == 0 {
        s.len() == 0
    } else if p[0] == '%' {
        like(s, p.drop_first()) || (s.len() > 0 && like(s.drop_first(), p))
    } else if p[0] == '_' {
        s.len() > 0 && like(s.drop_first(), p.drop_first())
    } else {
        s.len() > 0 && s[0] == p[0] && like(s.drop_first(), p.drop_first())
    }
}

/// No `%` and no `_`: the pattern only matches itself.
pub open spec fn is_literal(m: Seq<char>) -> bool {
    forall|i: int| 0 <= i < m.len() ==> #[trigger] m[i] != '%' && m[i] != '_'
}

pub open spec fn has_char(s: Seq<char>, c: char) -> bool {
    exists|i: int| 0 <= i < s.len() && s[i] == c
}

/// `%` absorbs any prefix.
pub proof fn lemma_percent(s: Seq<char>, q: Seq<char>)
    ensures
        like(s, seq!['%'] + q) <==> exists|k: int| 0 <= k <= s.len() && #[trigger] like(s.subrange(k, s.len() as int), q),
    decreases s.len(),
{
    let p = seq!['%'] + q;
    assert(p.drop_first() =~= q);
    assert(p[0] == '%');
    assert(s.subrange(0, s.len() as int) =~= s);
    if s.len() == 0 {
        if like(s, q) {
            assert(like(s.subrange(0, 0), q));
        }
        if exists|k: int| 0 <= k <= s.len() && #[trigger] like(s.subrange(k, s.len() as int), q) {
            let k = choose|k: int| 0 <= k <= s.len() && #[trigger] like(s.subrange(k, s.len() as int), q);
            assert(k == 0);
        }
    } else {
        lemma_percent(s.drop_first(), q);
        let t = s.drop_first();
        if like(s, p) {
            if !like(s, q) {
                assert(like(t, p));
                let k = choose|k: int| 0 <= k <= t.len() && #[trigger] like(t.subrange(k, t.len() as int), q);
                assert(t.subrange(k, t.len() as int) =~= s.subrange(k + 1, s.len() as int));
                assert(like(s.subrange(k + 1, s.len() as int), q));
            }
        }
        if exists|k: int| 0 <= k <= s.len() && #[trigger] like(s.subrange(k, s.len() as int), q) {
            let k = choose|k: int| 0 <= k <= s.len() && #[trigger] like(s.subrange(k, s.len() as int), q);
            if k > 0 {
                assert(t.subrange(k - 1, t.len() as int) =~= s.subrange(k, s.len() as int));
                assert(like(t.subrange(k - 1, t.len() as int), q));
                assert(like(t, p));
            }
        }
    }
}

/// A pattern that starts with `%` matching a suffix also matches any longer suffix.
pub proof fn lemma_percent_monotone(s: Seq<char>, q: Seq<char>, a: int, b: int)
    requires
        0 <= a <= b <= s.len(),
        like(s.subrange(b, s.len() as int), seq!['%'] + q),
    ensures
        like(s.subrange(a, s.len() as int), seq!['%'] + q),
{
    let sb = s.subrange(b, s.len() as int);
    let sa = s.subrange(a, s.len() as int);
    lemma_percent(sb, q);
    lemma_percent(sa, q);
    let k = choose|k: int| 0 <= k <= sb.len() && #[trigger] like(sb.subrange(k, sb.len() as int), q);
    assert(sa.subrange(k + (b - a), sa.len() as int) =~= sb.subrange(k, sb.len() as int));
    assert(like(sa.subrange(k + (b - a), sa.len() as int), q));
}

/// Matching a concatenated pattern splits the text.
pub proof fn lemma_concat(s: Seq<char>, q1: Seq<char>, q2: Seq<char>)
    ensures
        like(s, q1 + q2) <==> exists|k: int|
            0 <= k <= s.len() && #[trigger] like(s.subrange(0, k), q1) && like(s.subrange(k, s.len() as int), q2),
    decreases q1.len(), s.len(),
{
    let p = q1 + q2;
    assert(s.subrange(0, s.len() as int) =~= s);
    assert(s.subrange(0, 0).len() == 0);
    if q1.len() == 0 {
        assert(p =~= q2);
        if like(s, p) {
            assert(like(s.subrange(0, 0), q1));
            assert(s.subrange(0, s.len() as int) =~= s);
        }
        if exists|k: int| 0 <= k <= s.len() && #[trigger] like(s.subrange(0, k), q1) && like(s.subrange(k, s.len() as int), q2) {
            let k = choose|k: int| 0 <= k <= s.len() && #[trigger] like(s.subrange(0, k), q1) && like(s.subrange(k, s.len() as int), q2);
            assert(k == 0);
        }
    } else if q1[0] == '%' {
        let q1t = q1.drop_first();
        assert(p.drop_first() =~= q1t + q2);
        assert(p[0] == '%');
        lemma_concat(s, q1t, q2);
        if s.len() > 0 {
            lemma_concat(s.drop_first(), q1, q2);
        }
        if like(s, p) {
            if like(s, q1t + q2) {
                let k = choose|k: int| 0 <= k <= s.len() && #[trigger] like(s.subrange(0, k), q1t) && like(s.subrange(k, s.len() as int), q2);
                assert(like(s.subrange(0, k), q1));
            } else {
                let t = s.drop_first();
                assert(like(t, p));
                let k = choose|k: int| 0 <= k <= t.len() && #[trigger] like(t.subrange(0, k), q1) && like(t.subrange(k, t.len() as int), q2);
                assert(s.subrange(0, k + 1).drop_first() =~= t.subrange(0, k));
                assert(s.subrange(k + 1, s.len() as int) =~= t.subrange(k, t.len() as int));
                assert(like(s.subrange(0, k + 1), q1));
            }
        }
        if exists|k: int| 0 <= k <= s.len() && #[trigger] like(s.subrange(0, k), q1) && like(s.subrange(k, s.len() as int), q2) {
            let k = choose|k: int| 0 <= k <= s.len() && #[trigger] like(s.subrange(0, k), q1) && like(s.subrange(k, s.len() as int), q2);
            let sk = s.subrange(0, k);
            if like(sk, q1t) {
                assert(like(s, q1t + q2));
            } else {
                assert(sk.len() > 0 && like(sk.drop_first(), q1));
                let t = s.drop_first();
                assert(sk.drop_first() =~= t.subrange(0, k - 1));
                assert(s.subrange(k, s.len() as int) =~= t.subrange(k - 1, t.len() as int));
                assert(like(t.subrange(0, k - 1), q1) && like(t.subrange(k - 1, t.len() as int), q2));
                assert(like(t, p));
            }
        }
    } else {
        let q1t = q1.drop_first();
        assert(p.drop_first() =~= q1t + q2);
        assert(p[0] == q1[0]);
        if s.len() > 0 {
            let t = s.drop_first();
            lemma_concat(t, q1t, q2);
            if like(s, p) {
                let k = choose|k: int| 0 <= k <= t.len() && #[trigger] like(t.subrange(0, k), q1t) && like(t.subrange(k, t.len() as int), q2);
                assert(s.subrange(0, k + 1).drop_first() =~= t.subrange(0, k));
                assert(s.subrange(k + 1, s.len() as int) =~= t.subrange(k, t.len() as int));
                assert(like(s.subrange(0, k + 1), q1));
            }
            if exists|k: int| 0 <= k <= s.len() && #[trigger] like(s.subrange(0, k), q1) && like(s.subrange(k, s.len() as int), q2) {
                let k = choose|k: int| 0 <= k <= s.len() && #[trigger] like(s.subrange(0, k), q1) && like(s.subrange(k, s.len() as int), q2);
                let sk = s.subrange(0, k);
                assert(k > 0);
                assert(sk.drop_first() =~= t.subrange(0, k - 1));
                assert(s.subrange(k, s.len() as int) =~= t.subrange(k - 1, t.len() as int));
                assert(like(t.subrange(0, k - 1), q1t) && like(t.subrange(k - 1, t.len() as int), q2));
            }
        } else {
            if exists|k: int| 0 <= k <= s.len() && #[trigger] like(s.subrange(0, k), q1) && like(s.subrange(k, s.len() as int), q2) {
                let k = choose|k: int| 0 <= k <= s.len() && #[trigger] like(s.subrange(0, k), q1) && like(s.subrange(k, s.len() as int), q2);
                assert(k == 0);
            }
        }
    }
}

/// A literal pattern matches exactly itself.
pub proof fn lemma_literal(s: Seq<char>, m: Seq<char>)
    requires
        is_literal(m),
    ensures
        like(s, m) <==> s == m,
    decreases m.len(),
{
    if m.len() == 0 {
        if like(s, m) {
            assert(s =~= m);
        }
    } else {
        assert(m[0] != '%' && m[0] != '_');
        assert forall|i: int| 0 <= i < m.drop_first().len() implies #[trigger] m.drop_first()[i] != '%' && m.drop_first()[i] != '_' by {
            assert(m.drop_first()[i] == m[i + 1]);
        }
        lemma_literal(s.drop_first(), m.drop_first());
        if s == m {
            assert(s.drop_first() =~= m.drop_first());
        }
        if like(s, m) {
            assert(s.len() > 0);
            assert(s =~= seq![s[0]] + s.drop_first());
            assert(m =~= seq![m[0]] + m.drop_first());
        }
    }
}

/// Literal prefix of a pattern.
pub proof fn lemma_literal_prefix(s: Seq<char>, m: Seq<char>, q: Seq<char>)
    requires
        is_literal(m),
    ensures
        like(s, m + q) <==> starts_with(s, m) && like(s.subrange(m.len() as int, s.len() as int), q),
{
    lemma_concat(s, m, q);
    if like(s, m + q) {
        let k = choose|k: int| 0 <= k <= s.len() && #[trigger] like(s.subrange(0, k), m) && like(s.subrange(k, s.len() as int), q);
        lemma_literal(s.subrange(0, k), m);
    }
    if starts_with(s, m) && like(s.subrange(m.len() as int, s.len() as int), q) {
        lemma_literal(s.subrange(0, m.len() as int), m);
        assert(like(s.subrange(0, m.len() as int), m));
    }
}

/// Literal suffix of a pattern.
pub proof fn lemma_literal_suffix(s: Seq<char>, q: Seq<char>, m: Seq<char>)
    requires
        is_literal(m),
    ensures
        like(s, q + m) <==> ends_with(s, m) && like(s.subrange(0, s.len() - m.len()), q),
{
    lemma_concat(s, q, m);
    if like(s, q + m) {
        let k = choose|k: int| 0 <= k <= s.len() && #[trigger] like(s.subrange(0, k), q) && like(s.subrange(k, s.len() as int), m);
        lemma_literal(s.subrange(k, s.len() as int), m);
        assert(k == s.len() - m.len());
    }
    if ends_with(s, m) && like(s.subrange(0, s.len() - m.len()), q) {
        let k = s.len() - m.len();
        lemma_literal(s.subrange(k, s.len() as int), m);
        assert(like(s.subrange(k, s.len() as int), m));
    }
}

/// Character-by-character matcher with backtracking on `%`; `r` says whether
/// `s[si..]` matches `p[pi..]`.
fn char_match_from(s: &[char], p: &[char], si: usize, pi: usize) -> (r: bool)
    requires
        si <= s@.len(),
        pi <= p@.len(),
    ensures
        r == like(s@.subrange(si as int, s@.len() as int), p@.subrange(pi as int, p@.len() as int)),
    decreases p@.len() - pi, s@.len() - si,
{
    let ghost ss = s@.subrange(si as int, s@.len() as int);
    let ghost pp = p@.subrange(pi as int, p@.len() as int);
    if pi == p.len() {
        return si == s.len();
    }
    assert(pp.drop_first() =~= p@.subrange(pi + 1, p@.len() as int));
    if si < s.len() {
        assert(ss.drop_first() =~= s@.subrange(si + 1, s@.len() as int));
    }
    let c = p[pi];
    if c == '%' {
        proof {
            assert(pp =~= seq!['%'] + pp.drop_first());
            lemma_percent(ss, pp.drop_first());
        }
        let mut i = si;
        while i <= s.len()
            invariant
                si <= i <= s@.len() + 1,
                pi < p.len(),
                pp == p@.subrange(pi as int, p@.len() as int),
                pp =~= seq!['%'] + pp.drop_first(),
                like(ss, pp) <==> exists|k: int| 0 <= k <= ss.len() && #[trigger] like(ss.subrange(k, ss.len() as int), pp.drop_first()),
                ss == s@.subrange(si as int, s@.len() as int),
                pp.drop_first() == p@.subrange(pi + 1, p@.len() as int),
                forall|k: int| 0 <= k < i - si ==> !like(#[trigger] ss.subrange(k, ss.len() as int), pp.drop_first()),
            decreases s@.len() + 1 - i,
        {
            let m = char_match_from(s, p, i, pi + 1);
            assert(ss.subrange(i - si, ss.len() as int) =~= s@.subrange(i as int, s@.len() as int));
            if m {
                assert(like(ss.subrange(i - si, ss.len() as int), pp.drop_first()));
                return true;
            }
            if i == s.len() {
                assert forall|k: int| 0 <= k <= ss.len() implies !like(#[trigger] ss.subrange(k, ss.len() as int), pp.drop_first()) by {
                    if k < i - si {
                    }
                }
                return false;
            }
            i = i + 1;
        }
        false
    } else if c == '_' {
        si < s.len() && char_match_from(s, p, si + 1, pi + 1)
    } else {
        si < s.len() && s[si] == c && char_match_from(s, p, si + 1, pi + 1)
    }
}

/// Character-by-character `LIKE` match.
pub fn like_char_match(s: &[char], p: &[char]) -> (r: bool)
    ensures
        r == like(s@, p@),
{
    assert(s@.subrange(0, s@.len() as int) =~= s@);
    assert(p@.subrange(0, p@.len() as int) =~= p@);
    char_match_from(s, p, 0, 0)
}

/// Pieces of a pattern between its `%` signs.
pub open spec fn join_pct(parts: Seq<Seq<char>>) -> Seq<char>
    decreases parts.len(),
{
    if parts.len() <= 1 {
        if parts.len() == 1 { parts[0] } else { Seq::empty() }
    } else {
        parts[0] + seq!['%'] + join_pct(parts.drop_first())
    }
}

/// `%m1%m2%...%mk%`: the middle pieces, each framed by `%`.
pub open spec fn framed(mids: Seq<Seq<char>>) -> Seq<char>
    decreases mids.len(),
{
    if mids.len() == 0 {
        seq!['%']
    } else {
        seq!['%'] + mids[0] + framed(mids.drop_first())
    }
}

proof fn lemma_framed_starts_pct(mids: Seq<Seq<char>>)
    ensures
        framed(mids).len() > 0,
        framed(mids)[0] == '%',
        framed(mids) =~= seq!['%'] + framed(mids).drop_first(),
    decreases mids.len(),
{
}

/// `join_pct` of at least two pieces is first piece, framed middles, last piece.
proof fn lemma_join_shape(parts: Seq<Seq<char>>)
    requires
        parts.len() >= 2,
    ensures
        join_pct(parts) =~= parts[0] + framed(parts.subrange(1, parts.len() - 1)) + parts.last(),
    decreases parts.len(),
{
    if parts.len() == 2 {
        let j = join_pct(parts.drop_first());
        assert(j == parts[1]);
        assert(parts.subrange(1, 1).len() == 0);
    } else {
        let rest = parts.drop_first();
        lemma_join_shape(rest);
        assert(rest.subrange(1, rest.len() - 1) =~= parts.subrange(2, parts.len() - 1));
        let mids = parts.subrange(1, parts.len() - 1);
        assert(mids.drop_first() =~= parts.subrange(2, parts.len() - 1));
        assert(mids[0] == parts[1]);
        assert(rest[0] == parts[1]);
        assert(rest.last() == parts.last());
    }
}

pub open spec fn all_literal(parts: Seq<Seq<char>>) -> bool {
    forall|i: int| 0 <= i < parts.len() ==> is_literal(#[trigger] parts[i])
}

/// Greedy search for the middle pieces: each nonempty piece at its leftmost
/// occurrence after the previous one.
fn find_mids(r: &[char], mids: &Vec<Vec<char>>, start: usize, end: usize, from: usize) -> (ok: bool)
    requires
        from <= r@.len(),
        start <= end <= mids@.len(),
        forall|i: int| 0 <= i < mids@.len() ==> is_literal(#[trigger] mids@[i]@),
    ensures
        ok == like(r@.subrange(from as int, r@.len() as int), framed(mids@.subrange(start as int, end as int).map_values(|v: Vec<char>| v@))),
    decreases end - start,
{
    let ghost rr = r@.subrange(from as int, r@.len() as int);
    let ghost ms = mids@.subrange(start as int, end as int).map_values(|v: Vec<char>| v@);
    if start == end {
        proof {
            assert(ms.len() == 0);
            lemma_percent(rr, Seq::empty());
            assert(rr.subrange(rr.len() as int, rr.len() as int).len() == 0);
            assert(like(rr.subrange(rr.len() as int, rr.len() as int), Seq::<char>::empty()));
            assert(framed(ms) =~= seq!['%'] + Seq::<char>::empty());
        }
        return true;
    }
    let ghost m = mids@[start as int]@;
    let ghost rest = mids@.subrange(start + 1, end as int).map_values(|v: Vec<char>| v@);
    proof {
        assert(ms[0] == m);
        assert(ms.drop_first() =~= rest);
        assert(framed(ms) =~= seq!['%'] + m + framed(rest));
        lemma_framed_starts_pct(rest);
    }
    let mv = &mids[start];
    if mv.len() == 0 {
        let ok = find_mids(r, mids, start + 1, end, from);
        proof {
            assert(m.len() == 0);
            assert(framed(ms) =~= seq!['%'] + framed(rest));
            lemma_percent(rr, framed(rest));
            if like(rr, framed(ms)) {
                let k = choose|k: int| 0 <= k <= rr.len() && #[trigger] like(rr.subrange(k, rr.len() as int), framed(rest));
                assert(rr.subrange(k, rr.len() as int) == r@.subrange(from + k, r@.len() as int));
                let fr = framed(rest).drop_first();
                assert(framed(rest) =~= seq!['%'] + fr);
                lemma_percent_monotone(r@, fr, from as int, from + k);
                assert(rr == r@.subrange(from as int, r@.len() as int));
            }
            if ok {
                assert(rr.subrange(0, rr.len() as int) =~= rr);
            }
        }
        return ok;
    }
    match find_from(r, mv.as_slice(), from) {
        None => {
            proof {
                lemma_percent(rr, m + framed(rest));
                if like(rr, framed(ms)) {
                    assert(framed(ms) =~= seq!['%'] + (m + framed(rest)));
                    let k = choose|k: int| 0 <= k <= rr.len() && #[trigger] like(rr.subrange(k, rr.len() as int), m + framed(rest));
                    let sk = rr.subrange(k, rr.len() as int);
                    lemma_literal_prefix(sk, m, framed(rest));
                    assert(sk.subrange(0, m.len() as int) =~= r@.subrange(from + k, from + k + m.len()));
                    assert(occurs_at(r@, m, from + k));
                }
            }
            false
        },
        Some(j) => {
            assert(j + mv.len() <= r.len());
            let next = j + mv.len();
            let ok = find_mids(r, mids, start + 1, end, next);
            proof {
                assert(framed(ms) =~= seq!['%'] + (m + framed(rest)));
                lemma_percent(rr, m + framed(rest));
                let fr = framed(rest).drop_first();
                assert(framed(rest) =~= seq!['%'] + fr);
                if ok {
                    let k = j - from;
                    let sk = rr.subrange(k, rr.len() as int);
                    assert(sk =~= r@.subrange(j as int, r@.len() as int));
                    lemma_literal_prefix(sk, m, framed(rest));
                    assert(sk.subrange(0, m.len() as int) =~= r@.subrange(j as int, j + m.len()));
                    assert(sk.subrange(m.len() as int, sk.len() as int) =~= r@.subrange(next as int, r@.len() as int));
                    assert(like(sk, m + framed(rest)));
                }
                if like(rr, framed(ms)) {
                    let k = choose|k: int| 0 <= k <= rr.len() && #[trigger] like(rr.subrange(k, rr.len() as int), m + framed(rest));
                    let sk = rr.subrange(k, rr.len() as int);
                    lemma_literal_prefix(sk, m, framed(rest));
                    assert(sk.subrange(0, m.len() as int) =~= r@.subrange(from + k, from + k + m.len()));
                    assert(occurs_at(r@, m, from + k));
                    assert(j <= from + k);
                    assert(sk.subrange(m.len() as int, sk.len() as int) =~= r@.subrange(from + k + m.len(), r@.len() as int));
                    lemma_percent_monotone(r@, fr, next as int, from + k + m.len());
                }
            }
            ok
        },
    }
}

/// Splits a pattern at every `%` (`str::split('%')`).
pub fn split_pct(p: &[char]) -> (parts: Vec<Vec<char>>)
    ensures
        parts@.len() >= 1,
        join_pct(parts@.map_values(|v: Vec<char>| v@)) == p@,
        forall|i: int| 0 <= i < parts@.len() ==> !has_char(#[trigger] parts@[i]@, '%'),
{
    let mut parts: Vec<Vec<char>> = Vec::new();
    let mut cur: Vec<char> = Vec::new();
    let mut i: usize = 0;
    assert(join_pct(seq![Seq::<char>::empty()]) =~= p@.subrange(0, 0));
    assert(parts@.map_values(|v: Vec<char>| v@).push(cur@) =~= seq![Seq::<char>::empty()]);
    while i < p.len()
        invariant
            i <= p@.len(),
            !has_char(cur@, '%'),
            forall|k: int| 0 <= k < parts@.len() ==> !has_char(#[trigger] parts@[k]@, '%'),
            join_pct(parts@.map_values(|v: Vec<char>| v@).push(cur@)) == p@.subrange(0, i as int),
        decreases p.len() - i,
    {
        let ghost pv = parts@.map_values(|v: Vec<char>| v@);
        let ghost piece = cur@;
        if p[i] == '%' {
            parts.push(cur);
            cur = Vec::new();
            proof {
                assert(parts@.map_values(|v: Vec<char>| v@) =~= pv.push(piece));
                lemma_join_close(pv, piece);
                assert(p@.subrange(0, i + 1) =~= p@.subrange(0, i as int) + seq!['%']);
                assert(cur@ =~= Seq::<char>::empty());
            }
        } else {
            cur.push(p[i]);
            proof {
                assert(parts@.map_values(|v: Vec<char>| v@) =~= pv);
                lemma_join_extend(pv, piece, seq![p@[i as int]]);
                assert(cur@ =~= piece + seq![p@[i as int]]);
                assert(p@.subrange(0, i + 1) =~= p@.subrange(0, i as int) + seq![p@[i as int]]);
                if has_char(cur@, '%') {
                    let k = choose|k: int| 0 <= k < cur@.len() && cur@[k] == '%';
                    assert(k < piece.len());
                    assert(piece[k] == '%');
                }
            }
        }
        i = i + 1;
    }
    let ghost pv = parts@.map_values(|v: Vec<char>| v@);
    let ghost piece = cur@;
    parts.push(cur);
    proof {
        assert(parts@.map_values(|v: Vec<char>| v@) =~= pv.push(piece));
        assert(p@.subrange(0, p@.len() as int) =~= p@);
    }
    parts
}

/// Extending the last piece extends the joined text.
proof fn lemma_join_extend(ps: Seq<Seq<char>>, x: Seq<char>, y: Seq<char>)
    ensures
        join_pct(ps.push(x + y)) =~= join_pct(ps.push(x)) + y,
    decreases ps.len(),
{
    if ps.len() > 0 {
        lemma_join_extend(ps.drop_first(), x, y);
        assert(ps.push(x + y).drop_first() =~= ps.drop_first().push(x + y));
        assert(ps.push(x).drop_first() =~= ps.drop_first().push(x));
    }
}

/// Closing the last piece and opening an empty one adds a `%`.
proof fn lemma_join_close(ps: Seq<Seq<char>>, x: Seq<char>)
    ensures
        join_pct(ps.push(x).push(Seq::<char>::empty())) =~= join_pct(ps.push(x)) + seq!['%'],
    decreases ps.len(),
{
    if ps.len() == 0 {
        let a = ps.push(x).push(Seq::<char>::empty());
        assert(a =~= seq![x, Seq::<char>::empty()]);
        assert(a.drop_first() =~= seq![Seq::<char>::empty()]);
        assert(ps.push(x) =~= seq![x]);
        assert(join_pct(seq![Seq::<char>::empty()]) == Seq::<char>::empty());
        assert(join_pct(a) == a[0] + seq!['%'] + join_pct(a.drop_first()));
        assert(join_pct(seq![x]) == x);
    } else {
        lemma_join_close(ps.drop_first(), x);
        assert(ps.push(x).push(Seq::<char>::empty()).drop_first() =~= ps.drop_first().push(x).push(Seq::<char>::empty()));
        assert(ps.push(x).drop_first() =~= ps.drop_first().push(x));
    }
}

/// Every character of a piece also occurs in the joined pattern.
proof fn lemma_part_char(parts: Seq<Seq<char>>, i: int, k: int)
    requires
        0 <= i < parts.len(),
        0 <= k < parts[i].len(),
    ensures
        has_char(join_pct(parts), parts[i][k]),
    decreases parts.len(),
{
    let j = join_pct(parts);
    if parts.len() == 1 {
        assert(j[k] == parts[i][k]);
    } else if i == 0 {
        assert(j == parts[0] + seq!['%'] + join_pct(parts.drop_first()));
        assert(j[k] == parts[0][k]);
    } else {
        lemma_part_char(parts.drop_first(), i - 1, k);
        let rest = join_pct(parts.drop_first());
        assert(parts.drop_first()[i - 1] == parts[i]);
        let m = choose|m: int| 0 <= m < rest.len() && rest[m] == parts[i][k];
        assert(j == parts[0] + seq!['%'] + rest);
        assert(j[parts[0].len() + 1 + m] == rest[m]);
    }
}

/// `LIKE` for a pattern already split at its `%` signs, none of whose pieces
/// holds `_`: prefix piece, suffix piece, then the middle pieces greedily in order.
pub fn like_wildcard(s: &[char], parts: &Vec<Vec<char>>) -> (r: bool)
    requires
        parts@.len() >= 1,
        forall|i: int| 0 <= i < parts@.len() ==> is_literal(#[trigger] parts@[i]@),
    ensures
        r == like(s@, join_pct(parts@.map_values(|v: Vec<char>| v@))),
{
    let ghost pv = parts@.map_values(|v: Vec<char>| v@);
    let n = parts.len();
    if n == 1 {
        proof {
            assert(pv.len() == 1);
            assert(join_pct(pv) == pv[0]);
            lemma_literal(s@, pv[0]);
        }
        return crate::text::chars_eq(s, parts[0].as_slice());
    }
    proof {
        lemma_join_shape(pv);
    }
    let ghost p0 = pv[0];
    let ghost pk = pv.last();
    let ghost mids = pv.subrange(1, pv.len() - 1);
    assert(mids =~= parts@.subrange(1, n - 1).map_values(|v: Vec<char>| v@));
    let first = &parts[0];
    let last = &parts[n - 1];
    assert(first@ == p0 && last@ == pk);
    proof {
        assert(join_pct(pv) =~= p0 + (framed(mids) + pk));
        lemma_literal_prefix(s@, p0, framed(mids) + pk);
    }
    let mut from: usize = 0;
    if first.len() > 0 {
        if !starts_with_chars(s, first.as_slice()) {
            return false;
        }
        from = first.len();
    } else {
        assert(starts_with(s@, p0)) by {
            assert(s@.subrange(0, 0) =~= p0);
        }
    }
    assert(from == p0.len());
    let s1 = slice_range(s, from, s.len());
    proof {
        lemma_literal_suffix(s1@, framed(mids), pk);
    }
    let mut to = s1.len();
    if last.len() > 0 {
        if !ends_with_chars(s1.as_slice(), last.as_slice()) {
            return false;
        }
        to = s1.len() - last.len();
    } else {
        assert(ends_with(s1@, pk)) by {
            assert(s1@.subrange(s1@.len() as int, s1@.len() as int) =~= pk);
        }
    }
    let r = slice_range(s1.as_slice(), 0, to);
    assert(r@.subrange(0, r@.len() as int) =~= r@);
    find_mids(r.as_slice(), parts, 1, n - 1, 0)
}

fn has_underscore(p: &[char]) -> (b: bool)
    ensures
        b == has_char(p@, '_'),
{
    let mut i: usize = 0;
    while i < p.len()
        invariant
            i <= p@.len(),
            forall|k: int| 0 <= k < i ==> p@[k] != '_',
        decreases p.len() - i,
    {
        if p[i] == '_' {
            return true;
        }
        i = i + 1;
    }
    false
}

/// SQL `LIKE`: `%` matches any run of characters, `_` exactly one,
/// anything else itself, anchored at both ends.
pub fn like_match(haystack: &[char], pattern: &[char]) -> (r: bool)
    ensures
        r == like(haystack@, pattern@),
{
    if !has_underscore(pattern) {
        let parts = split_pct(pattern);
        proof {
            let pv = parts@.map_values(|v: Vec<char>| v@);
            assert forall|i: int| 0 <= i < parts@.len() implies is_literal(#[trigger] parts@[i]@) by {
                assert forall|k: int| 0 <= k < parts@[i]@.len() implies #[trigger] parts@[i]@[k] != '%' && parts@[i]@[k] != '_' by {
                    assert(pv[i] == parts@[i]@);
                    lemma_part_char(pv, i, k);
                    if parts@[i]@[k] == '%' {
                        assert(has_char(parts@[i]@, '%'));
                    }
                }
            }
        }
        like_wildcard(haystack, &parts)
    } else {
        like_char_match(haystack, pattern)
    }
}

} // verus!
