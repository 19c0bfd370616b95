//! restic-style snapshot retention policy.
//!
//! Given snapshots and a [`Policy`], decides which snapshots survive and
//! which are pruned. Snapshots whose id does not read as a local time are
//! never removed; the caller decides between dry run and apply.

use vstd::prelude::*;
use vstd::string::*;

use crate::snapshots::{id_stamp, parse_id, LocalStamp, SnapshotTime};
use crate::sorting::{key_desc_fn, sort_key_desc};

verus! {

/// How many snapshots to keep by each rule; `None` disables the rule.
#[derive(Debug, Clone, Copy)]
pub struct Policy {
    pub keep_last: Option<usize>,
    pub keep_daily: Option<usize>,
    pub keep_weekly: Option<usize>,
    pub keep_monthly: Option<usize>,
    pub keep_yearly: Option<usize>,
}

impl Default for Policy {
    fn default() -> (p: Self)
        ensures
            p.keep_last is None,
            p.keep_daily is None,
            p.keep_weekly is None,
            p.keep_monthly is None,
            p.keep_yearly is None,
    {
        Policy { keep_last: None, keep_daily: None, keep_weekly: None, keep_monthly: None, keep_yearly: None }
    }
}

impl Policy {
    /// No rule is set.
    pub fn is_empty(&self) -> (b: bool)
        ensures
            b == (self.keep_last is None && self.keep_daily is None && self.keep_weekly is None
                && self.keep_monthly is None && self.keep_yearly is None),
    {
        self.keep_last.is_none() && self.keep_daily.is_none() && self.keep_weekly.is_none()
            && self.keep_monthly.is_none() && self.keep_yearly.is_none()
    }
}

/// A snapshot on disk.
#[derive(Debug, Clone)]
pub struct SnapshotMeta {
    pub id: String,
    pub path: String,
    pub bytes: u64,
    /// RFC 3339 time of the id, when it reads as one.
    pub created: Option<String>,
}

/// A surviving snapshot and the rules that keep it.
#[derive(Debug, Clone)]
pub struct KeptSnapshot {
    pub id: String,
    pub path: String,
    pub bytes: u64,
    /// Sorted, deduplicated rule names (`"daily"`, `"last"`, ...).
    pub reasons: Vec<&'static str>,
}

/// Outcome of a policy: kept and removed newest first, unreadable ids in
/// input order.
#[derive(Debug)]
pub struct Plan {
    pub kept: Vec<KeptSnapshot>,
    pub removed: Vec<SnapshotMeta>,
    pub skipped_unparseable: Vec<String>,
    pub total_removed_bytes: u64,
}

/// A retention rule, in the (alphabetical) order reasons are listed.
#[derive(Debug, Clone, Copy, PartialEq, Eq, Structural)]
pub enum Reason {
    Daily,
    Last,
    Monthly,
    Weekly,
    Yearly,
}

pub open spec fn reason_label(r: Reason) -> Seq<char> {
    match r {
        Reason::Daily => "daily"@,
        Reason::Last => "last"@,
        Reason::Monthly => "monthly"@,
        Reason::Weekly => "weekly"@,
        Reason::Yearly => "yearly"@,
    }
}

pub open spec fn reason_limit(p: Policy, r: Reason) -> Option<usize> {
    match r {
        Reason::Daily => p.keep_daily,
        Reason::Last => p.keep_last,
        Reason::Monthly => p.keep_monthly,
        Reason::Weekly => p.keep_weekly,
        Reason::Yearly => p.keep_yearly,
    }
}

/// Bucket of a local time for a rule: its date, ISO week, month or year.
pub open spec fn stamp_key(r: Reason, s: LocalStamp) -> (i64, i64, i64) {
    match r {
        Reason::Daily => (s.year as i64, s.month as i64, s.day as i64),
        Reason::Weekly => (s.iso_year as i64, s.iso_week as i64, 0),
        Reason::Monthly => (s.year as i64, s.month as i64, 1),
        Reason::Yearly => (s.year as i64, 1, 1),
        Reason::Last => (0, 0, 0),
    }
}

/// `(instant, index)` of each snapshot that has a reading, in input order.
pub open spec fn dated(times: Seq<Option<SnapshotTime>>) -> Seq<(i128, usize)>
    decreases times.len(),
{
    if times.len() == 0 {
        Seq::empty()
    } else {
        let rest = dated(times.drop_last());
        match times.last() {
            Some(t) => rest.push((t.instant as i128, (times.len() - 1) as usize)),
            None => rest,
        }
    }
}

/// Indices of the dated snapshots, newest first; equal times keep input order.
pub open spec fn newest_first(times: Seq<Option<SnapshotTime>>) -> Seq<usize> {
    dated(times).sort_by(key_desc_fn()).map_values(|p: (i128, usize)| p.1)
}

/// The rule's buckets along an ordering.
pub open spec fn keys_along(times: Seq<Option<SnapshotTime>>, order: Seq<usize>, r: Reason) -> Seq<(i64, i64, i64)> {
    order.map_values(
        |i: usize|
            match times[i as int] {
                Some(t) => stamp_key(r, t.stamp),
                None => (0, 0, 0),
            },
    )
}

/// Position `k` opens a bucket not seen before it.
pub open spec fn first_of_key(keys: Seq<(i64, i64, i64)>, k: int) -> bool {
    !keys.subrange(0, k).contains(keys[k])
}

/// Number of distinct buckets before position `k`.
pub open spec fn keys_before(keys: Seq<(i64, i64, i64)>, k: int) -> int
    decreases k,
{
    if k <= 0 {
        0
    } else {
        keys_before(keys, k - 1) + if first_of_key(keys, k - 1) {
            1int
        } else {
            0int
        }
    }
}

/// The rule picks position `k` of the newest-first order: one of the first
/// `n` for `last`; for a bucket rule, the newest of one of the `n` newest
/// buckets.
pub open spec fn position_marked(p: Policy, times: Seq<Option<SnapshotTime>>, r: Reason, k: int) -> bool {
    match reason_limit(p, r) {
        None => false,
        Some(n) => if r == Reason::Last {
            k < n
        } else {
            let keys = keys_along(times, newest_first(times), r);
            first_of_key(keys, k) && keys_before(keys, k) < n
        },
    }
}

/// The rule picks some dated snapshot with this id.
pub open spec fn reason_applies(
    snaps: Seq<SnapshotMeta>,
    times: Seq<Option<SnapshotTime>>,
    p: Policy,
    r: Reason,
    id: Seq<char>,
) -> bool {
    exists|k: int|
        0 <= k < newest_first(times).len() && snaps[newest_first(times)[k] as int].id@ == id
            && #[trigger] position_marked(p, times, r, k)
}

pub open spec fn label_if(b: bool, r: Reason) -> Seq<Seq<char>> {
    if b {
        seq![reason_label(r)]
    } else {
        Seq::empty()
    }
}

/// Names of the rules that keep snapshots with this id, sorted.
pub open spec fn reasons_for(
    snaps: Seq<SnapshotMeta>,
    times: Seq<Option<SnapshotTime>>,
    p: Policy,
    id: Seq<char>,
) -> Seq<Seq<char>> {
    label_if(reason_applies(snaps, times, p, Reason::Daily, id), Reason::Daily)
        + label_if(reason_applies(snaps, times, p, Reason::Last, id), Reason::Last)
        + label_if(reason_applies(snaps, times, p, Reason::Monthly, id), Reason::Monthly)
        + label_if(reason_applies(snaps, times, p, Reason::Weekly, id), Reason::Weekly)
        + label_if(reason_applies(snaps, times, p, Reason::Yearly, id), Reason::Yearly)
}

pub open spec fn id_kept(snaps: Seq<SnapshotMeta>, times: Seq<Option<SnapshotTime>>, p: Policy, id: Seq<char>) -> bool {
    reasons_for(snaps, times, p, id).len() > 0
}

/// Indices of the kept snapshots, newest first.
pub open spec fn kept_order(snaps: Seq<SnapshotMeta>, times: Seq<Option<SnapshotTime>>, p: Policy) -> Seq<usize> {
    newest_first(times).filter(|i: usize| id_kept(snaps, times, p, snaps[i as int].id@))
}

/// Indices of the removed snapshots, newest first.
pub open spec fn removed_order(snaps: Seq<SnapshotMeta>, times: Seq<Option<SnapshotTime>>, p: Policy) -> Seq<usize> {
    newest_first(times).filter(|i: usize| !id_kept(snaps, times, p, snaps[i as int].id@))
}

/// Ids without a reading, in input order.
pub open spec fn unreadable_ids(snaps: Seq<SnapshotMeta>, times: Seq<Option<SnapshotTime>>) -> Seq<Seq<char>>
    decreases snaps.len(),
{
    if snaps.len() == 0 || times.len() != snaps.len() {
        Seq::empty()
    } else {
        let rest = unreadable_ids(snaps.drop_last(), times.drop_last());
        if times.last() is None {
            rest.push(snaps.last().id@)
        } else {
            rest
        }
    }
}

/// Snapshot `i` has a reading and no rule keeps its id.
pub open spec fn is_removed(snaps: Seq<SnapshotMeta>, times: Seq<Option<SnapshotTime>>, p: Policy, i: int) -> bool {
    times[i] is Some && !id_kept(snaps, times, p, snaps[i].id@)
}

/// Bytes of the removed snapshots among the first `k`.
pub open spec fn removed_bytes(snaps: Seq<SnapshotMeta>, times: Seq<Option<SnapshotTime>>, p: Policy, k: int) -> int
    decreases k,
{
    if k <= 0 {
        0
    } else {
        removed_bytes(snaps, times, p, k - 1) + if is_removed(snaps, times, p, k - 1) {
            snaps[k - 1].bytes as int
        } else {
            0int
        }
    }
}

pub open spec fn kept_view(k: KeptSnapshot) -> (Seq<char>, Seq<char>, u64, Seq<Seq<char>>) {
    (k.id@, k.path@, k.bytes, k.reasons@.map_values(|s: &str| s@))
}

pub open spec fn same_meta(a: SnapshotMeta, b: SnapshotMeta) -> bool {
    &&& a.id@ == b.id@
    &&& a.path@ == b.path@
    &&& a.bytes == b.bytes
    &&& match (a.created, b.created) {
        (Some(x), Some(y)) => x@ == y@,
        (None, None) => true,
        _ => false,
    }
}

/// `plan` is the outcome of the policy on these snapshots and readings.
pub open spec fn plan_is(plan: Plan, snaps: Seq<SnapshotMeta>, times: Seq<Option<SnapshotTime>>, p: Policy) -> bool {
    let ko = kept_order(snaps, times, p);
    let ro = removed_order(snaps, times, p);
    &&& plan.kept@.len() == ko.len()
    &&& forall|j: int|
        0 <= j < ko.len() ==> #[trigger] kept_view(plan.kept@[j]) == (
            snaps[ko[j] as int].id@,
            snaps[ko[j] as int].path@,
            snaps[ko[j] as int].bytes,
            reasons_for(snaps, times, p, snaps[ko[j] as int].id@),
        )
    &&& plan.removed@.len() == ro.len()
    &&& forall|j: int| 0 <= j < ro.len() ==> same_meta(#[trigger] plan.removed@[j], snaps[ro[j] as int])
    &&& plan.skipped_unparseable@.map_values(|s: String| s@) == unreadable_ids(snaps, times)
    &&& plan.total_removed_bytes == removed_bytes(snaps, times, p, snaps.len() as int)
}

// ---------------------------------------------------------------------
// Proof support
// ---------------------------------------------------------------------

proof fn lemma_dated_elems(times: Seq<Option<SnapshotTime>>)
    requires
        times.len() <= usize::MAX,
    ensures
        forall|j: int|
            0 <= j < dated(times).len() ==> {
                let e = #[trigger] dated(times)[j];
                &&& e.1 < times.len()
                &&& times[e.1 as int] matches Some(t) && e.0 == t.instant as i128
            },
    decreases times.len(),
{
    if times.len() > 0 {
        lemma_dated_elems(times.drop_last());
    }
}

/// Every position of the newest-first order names a dated snapshot.
proof fn lemma_order_valid(times: Seq<Option<SnapshotTime>>)
    requires
        times.len() <= usize::MAX,
    ensures
        forall|k: int|
            0 <= k < newest_first(times).len() ==> (#[trigger] newest_first(times)[k]) < times.len()
                && times[newest_first(times)[k] as int] is Some,
{
    crate::sorting::lemma_key_desc_total();
    dated(times).lemma_sort_by_ensures(key_desc_fn());
    lemma_dated_elems(times);
    let sorted = dated(times).sort_by(key_desc_fn());
    assert forall|k: int| 0 <= k < newest_first(times).len() implies (#[trigger] newest_first(times)[k])
        < times.len() && times[newest_first(times)[k] as int] is Some by {
        let e = sorted[k];
        assert(sorted.contains(e));
        assert(dated(times).contains(e));
        let j = choose|j: int| 0 <= j < dated(times).len() && dated(times)[j] == e;
        assert(dated(times)[j] == e);
    }
}

// ---------------------------------------------------------------------
// Executable side
// ---------------------------------------------------------------------

fn key_of(r: Reason, s: LocalStamp) -> (k: (i64, i64, i64))
    ensures
        k == stamp_key(r, s),
{
    match r {
        Reason::Daily => (s.year as i64, s.month as i64, s.day as i64),
        Reason::Weekly => (s.iso_year as i64, s.iso_week as i64, 0),
        Reason::Monthly => (s.year as i64, s.month as i64, 1),
        Reason::Yearly => (s.year as i64, 1, 1),
        Reason::Last => (0, 0, 0),
    }
}

fn key_seen(seen: &Vec<(i64, i64, i64)>, k: (i64, i64, i64)) -> (b: bool)
    ensures
        b == seen@.contains(k),
{
    let mut i: usize = 0;
    while i < seen.len()
        invariant
            i <= seen@.len(),
            forall|j: int| 0 <= j < i ==> seen@[j] != k,
        decreases seen.len() - i,
    {
        let e = seen[i];
        if e.0 == k.0 && e.1 == k.1 && e.2 == k.2 {
            assert(seen@[i as int] == k);
            return true;
        }
        i = i + 1;
    }
    false
}

proof fn lemma_push_contains<T>(s: Seq<T>, e: T, x: T)
    ensures
        s.push(e).contains(x) <==> (s.contains(x) || x == e),
{
    if s.push(e).contains(x) {
        let j = choose|j: int| 0 <= j < s.push(e).len() && #[trigger] s.push(e)[j] == x;
        if j < s.len() {
            assert(s[j] == x);
        }
    }
    if s.contains(x) {
        let j = choose|j: int| 0 <= j < s.len() && #[trigger] s[j] == x;
        assert(s.push(e)[j] == x);
    }
    if x == e {
        assert(s.push(e)[s.len() as int] == x);
    }
}

/// Marks of a bucket rule with limit `n` along the given buckets.
fn bucket_marks(keys: &Vec<(i64, i64, i64)>, n: usize) -> (marks: Vec<bool>)
    ensures
        marks@.len() == keys@.len(),
        forall|k: int|
            0 <= k < keys@.len() ==> #[trigger] marks@[k] == (first_of_key(keys@, k) && keys_before(keys@, k) < n),
{
    let mut seen: Vec<(i64, i64, i64)> = Vec::new();
    let mut marks: Vec<bool> = Vec::new();
    let mut k: usize = 0;
    while k < keys.len()
        invariant
            k <= keys@.len(),
            marks@.len() == k,
            seen@.len() == keys_before(keys@, k as int),
            forall|x: (i64, i64, i64)| seen@.contains(x) <==> keys@.subrange(0, k as int).contains(x),
            forall|j: int|
                0 <= j < k ==> #[trigger] marks@[j] == (first_of_key(keys@, j) && keys_before(keys@, j) < n),
        decreases keys.len() - k,
    {
        let key = keys[k];
        let old_seen = key_seen(&seen, key);
        let ghost old = seen@;
        let ghost pre = keys@.subrange(0, k as int);
        assert(keys@.subrange(0, k + 1) =~= pre.push(key));
        assert(keys@[k as int] == key);
        if old_seen {
            marks.push(false);
        } else {
            marks.push(seen.len() < n);
            seen.push(key);
        }
        proof {
            assert forall|x: (i64, i64, i64)| seen@.contains(x) <==> keys@.subrange(0, k + 1).contains(x) by {
                lemma_push_contains(pre, key, x);
                if !old_seen {
                    lemma_push_contains(old, key, x);
                }
            }
        }
        k = k + 1;
    }
    marks
}

/// Marks of a rule along the newest-first order.
fn rule_marks(p: &Policy, r: Reason, times: &[Option<SnapshotTime>], order: &Vec<usize>) -> (marks: Vec<bool>)
    requires
        order@ == newest_first(times@),
    ensures
        marks@.len() == order@.len(),
        forall|k: int| 0 <= k < order@.len() ==> #[trigger] marks@[k] == position_marked(*p, times@, r, k),
{
    let tl = times.len();
    proof {
        lemma_order_valid(times@);
    }
    let limit = match r {
        Reason::Daily => p.keep_daily,
        Reason::Last => p.keep_last,
        Reason::Monthly => p.keep_monthly,
        Reason::Weekly => p.keep_weekly,
        Reason::Yearly => p.keep_yearly,
    };
    let mut marks: Vec<bool> = Vec::new();
    match limit {
        None => {
            let mut k: usize = 0;
            while k < order.len()
                invariant
                    k <= order@.len(),
                    marks@.len() == k,
                    reason_limit(*p, r) is None,
                    forall|j: int| 0 <= j < k ==> #[trigger] marks@[j] == position_marked(*p, times@, r, j),
                decreases order.len() - k,
            {
                marks.push(false);
                k = k + 1;
            }
            marks
        },
        Some(n) => {
            if r == Reason::Last {
                let mut k: usize = 0;
                while k < order.len()
                    invariant
                        k <= order@.len(),
                        marks@.len() == k,
                        r == Reason::Last,
                        reason_limit(*p, r) == Some(n),
                        forall|j: int| 0 <= j < k ==> #[trigger] marks@[j] == position_marked(*p, times@, r, j),
                    decreases order.len() - k,
                {
                    marks.push(k < n);
                    k = k + 1;
                }
                marks
            } else {
                let mut keys: Vec<(i64, i64, i64)> = Vec::new();
                let mut k: usize = 0;
                while k < order.len()
                    invariant
                        k <= order@.len(),
                        order@ == newest_first(times@),
                        forall|j: int|
                            0 <= j < order@.len() ==> (#[trigger] order@[j]) < times@.len() && times@[order@[j] as int] is Some,
                        keys@ == keys_along(times@, order@, r).subrange(0, k as int),
                    decreases order.len() - k,
                {
                    let i = order[k];
                    assert(order@[k as int] == i);
                    let t = times[i].unwrap();
                    keys.push(key_of(r, t.stamp));
                    k = k + 1;
                    assert(keys@ =~= keys_along(times@, order@, r).subrange(0, k as int));
                }
                assert(keys@ =~= keys_along(times@, order@, r));
                bucket_marks(&keys, n)
            }
        },
    }
}

/// Some position picked by the rule holds a snapshot with this id.
fn applies_to(snaps: &[SnapshotMeta], order: &Vec<usize>, marks: &Vec<bool>, id: &String) -> (b: bool)
    requires
        marks@.len() == order@.len(),
        forall|k: int| 0 <= k < order@.len() ==> (#[trigger] order@[k]) < snaps@.len(),
    ensures
        b == exists|k: int| 0 <= k < order@.len() && snaps@[order@[k] as int].id@ == id@ && #[trigger] marks@[k],
{
    let mut k: usize = 0;
    while k < order.len()
        invariant
            k <= order@.len(),
            marks@.len() == order@.len(),
            forall|j: int| 0 <= j < order@.len() ==> (#[trigger] order@[j]) < snaps@.len(),
            forall|j: int| 0 <= j < k ==> !(snaps@[order@[j] as int].id@ == id@ && #[trigger] marks@[j]),
        decreases order.len() - k,
    {
        let i = order[k];
        if marks[k] && snaps[i].id == *id {
            assert(snaps@[order@[k as int] as int].id@ == id@ && marks@[k as int]);
            return true;
        }
        k = k + 1;
    }
    false
}

/// The five rules' marks along the newest-first order.
struct RuleMarks {
    daily: Vec<bool>,
    last: Vec<bool>,
    monthly: Vec<bool>,
    weekly: Vec<bool>,
    yearly: Vec<bool>,
}

spec fn marks_hold(m: RuleMarks, p: Policy, times: Seq<Option<SnapshotTime>>) -> bool {
    let n = newest_first(times).len();
    &&& m.daily@.len() == n
    &&& m.last@.len() == n
    &&& m.monthly@.len() == n
    &&& m.weekly@.len() == n
    &&& m.yearly@.len() == n
    &&& forall|k: int| 0 <= k < n ==> #[trigger] m.daily@[k] == position_marked(p, times, Reason::Daily, k)
    &&& forall|k: int| 0 <= k < n ==> #[trigger] m.last@[k] == position_marked(p, times, Reason::Last, k)
    &&& forall|k: int| 0 <= k < n ==> #[trigger] m.monthly@[k] == position_marked(p, times, Reason::Monthly, k)
    &&& forall|k: int| 0 <= k < n ==> #[trigger] m.weekly@[k] == position_marked(p, times, Reason::Weekly, k)
    &&& forall|k: int| 0 <= k < n ==> #[trigger] m.yearly@[k] == position_marked(p, times, Reason::Yearly, k)
}

/// Sorted reason names for snapshots with this id.
fn reasons_of(
    snaps: &[SnapshotMeta],
    times: &[Option<SnapshotTime>],
    p: &Policy,
    order: &Vec<usize>,
    m: &RuleMarks,
    id: &String,
) -> (r: Vec<&'static str>)
    requires
        snaps@.len() == times@.len(),
        order@ == newest_first(times@),
        marks_hold(*m, *p, times@),
    ensures
        r@.map_values(|s: &str| s@) == reasons_for(snaps@, times@, *p, id@),
{
    let tl = times.len();
    proof {
        lemma_order_valid(times@);
    }
    let mut r: Vec<&'static str> = Vec::new();
    let ghost want = reasons_for(snaps@, times@, *p, id@);
    let d = applies_to(snaps, order, &m.daily, id);
    let l = applies_to(snaps, order, &m.last, id);
    let mo = applies_to(snaps, order, &m.monthly, id);
    let w = applies_to(snaps, order, &m.weekly, id);
    let y = applies_to(snaps, order, &m.yearly, id);
    proof {
        assert(d == reason_applies(snaps@, times@, *p, Reason::Daily, id@)) by {
            if d {
                let k = choose|k: int| 0 <= k < order@.len() && snaps@[order@[k] as int].id@ == id@ && #[trigger] m.daily@[k];
                assert(position_marked(*p, times@, Reason::Daily, k));
            }
            if reason_applies(snaps@, times@, *p, Reason::Daily, id@) {
                let k = choose|k: int|
                    0 <= k < newest_first(times@).len() && snaps@[newest_first(times@)[k] as int].id@ == id@
                        && #[trigger] position_marked(*p, times@, Reason::Daily, k);
                assert(m.daily@[k]);
            }
        }
        assert(l == reason_applies(snaps@, times@, *p, Reason::Last, id@)) by {
            if l {
                let k = choose|k: int| 0 <= k < order@.len() && snaps@[order@[k] as int].id@ == id@ && #[trigger] m.last@[k];
                assert(position_marked(*p, times@, Reason::Last, k));
            }
            if reason_applies(snaps@, times@, *p, Reason::Last, id@) {
                let k = choose|k: int|
                    0 <= k < newest_first(times@).len() && snaps@[newest_first(times@)[k] as int].id@ == id@
                        && #[trigger] position_marked(*p, times@, Reason::Last, k);
                assert(m.last@[k]);
            }
        }
        assert(mo == reason_applies(snaps@, times@, *p, Reason::Monthly, id@)) by {
            if mo {
                let k = choose|k: int| 0 <= k < order@.len() && snaps@[order@[k] as int].id@ == id@ && #[trigger] m.monthly@[k];
                assert(position_marked(*p, times@, Reason::Monthly, k));
            }
            if reason_applies(snaps@, times@, *p, Reason::Monthly, id@) {
                let k = choose|k: int|
                    0 <= k < newest_first(times@).len() && snaps@[newest_first(times@)[k] as int].id@ == id@
                        && #[trigger] position_marked(*p, times@, Reason::Monthly, k);
                assert(m.monthly@[k]);
            }
        }
        assert(w == reason_applies(snaps@, times@, *p, Reason::Weekly, id@)) by {
            if w {
                let k = choose|k: int| 0 <= k < order@.len() && snaps@[order@[k] as int].id@ == id@ && #[trigger] m.weekly@[k];
                assert(position_marked(*p, times@, Reason::Weekly, k));
            }
            if reason_applies(snaps@, times@, *p, Reason::Weekly, id@) {
                let k = choose|k: int|
                    0 <= k < newest_first(times@).len() && snaps@[newest_first(times@)[k] as int].id@ == id@
                        && #[trigger] position_marked(*p, times@, Reason::Weekly, k);
                assert(m.weekly@[k]);
            }
        }
        assert(y == reason_applies(snaps@, times@, *p, Reason::Yearly, id@)) by {
            if y {
                let k = choose|k: int| 0 <= k < order@.len() && snaps@[order@[k] as int].id@ == id@ && #[trigger] m.yearly@[k];
                assert(position_marked(*p, times@, Reason::Yearly, k));
            }
            if reason_applies(snaps@, times@, *p, Reason::Yearly, id@) {
                let k = choose|k: int|
                    0 <= k < newest_first(times@).len() && snaps@[newest_first(times@)[k] as int].id@ == id@
                        && #[trigger] position_marked(*p, times@, Reason::Yearly, k);
                assert(m.yearly@[k]);
            }
        }
    }
    if d {
        r.push("daily");
    }
    if l {
        r.push("last");
    }
    if mo {
        r.push("monthly");
    }
    if w {
        r.push("weekly");
    }
    if y {
        r.push("yearly");
    }
    proof {
        assert(r@.map_values(|s: &str| s@) =~= label_if(d, Reason::Daily) + label_if(l, Reason::Last)
            + label_if(mo, Reason::Monthly) + label_if(w, Reason::Weekly) + label_if(y, Reason::Yearly));
    }
    r
}

fn copy_meta(s: &SnapshotMeta) -> (c: SnapshotMeta)
    ensures
        same_meta(c, *s),
{
    let created = match &s.created {
        Some(t) => Some(t.clone()),
        None => None,
    };
    SnapshotMeta { id: s.id.clone(), path: s.path.clone(), bytes: s.bytes, created }
}

/// The retention plan for snapshots whose ids read as `times` (`None`
/// where an id has no reading), or `None` when the bytes of the removed
/// snapshots add up to more than `u64::MAX`. Kept and removed come newest
/// first.
pub fn plan_retention_checked(snaps: &[SnapshotMeta], times: &[Option<SnapshotTime>], policy: &Policy) -> (r: Option<Plan>)
    requires
        snaps@.len() == times@.len(),
    ensures
        r is None <==> removed_bytes(snaps@, times@, *policy, snaps@.len() as int) > u64::MAX,
        r matches Some(plan) ==> plan_is(plan, snaps@, times@, *policy),
{
    let ghost sv = snaps@;
    let ghost tv = times@;
    // Dated snapshots, newest first.
    let mut pairs: Vec<(i128, usize)> = Vec::new();
    let mut i: usize = 0;
    while i < times.len()
        invariant
            i <= tv.len(),
            tv == times@,
            pairs@ == dated(tv.subrange(0, i as int)),
        decreases times.len() - i,
    {
        let ghost pre = tv.subrange(0, i as int);
        assert(tv.subrange(0, i + 1).drop_last() =~= pre);
        match times[i] {
            Some(t) => {
                pairs.push((t.instant as i128, i));
            },
            None => {},
        }
        i = i + 1;
    }
    assert(tv.subrange(0, tv.len() as int) =~= tv);
    let sorted = sort_key_desc(pairs);
    let mut order: Vec<usize> = Vec::new();
    let mut k: usize = 0;
    while k < sorted.len()
        invariant
            k <= sorted@.len(),
            order@ == sorted@.subrange(0, k as int).map_values(|p: (i128, usize)| p.1),
        decreases sorted.len() - k,
    {
        order.push(sorted[k].1);
        k = k + 1;
        assert(order@ =~= sorted@.subrange(0, k as int).map_values(|p: (i128, usize)| p.1));
    }
    assert(sorted@.subrange(0, sorted@.len() as int) =~= sorted@);
    assert(order@ == newest_first(tv));
    proof {
        lemma_order_valid(tv);
    }
    let m = RuleMarks {
        daily: rule_marks(policy, Reason::Daily, times, &order),
        last: rule_marks(policy, Reason::Last, times, &order),
        monthly: rule_marks(policy, Reason::Monthly, times, &order),
        weekly: rule_marks(policy, Reason::Weekly, times, &order),
        yearly: rule_marks(policy, Reason::Yearly, times, &order),
    };
    // Kept and removed, newest first.
    let mut kept: Vec<KeptSnapshot> = Vec::new();
    let mut removed: Vec<SnapshotMeta> = Vec::new();
    let ghost keep_pred = |i: usize| id_kept(sv, tv, *policy, sv[i as int].id@);
    let ghost drop_pred = |i: usize| !id_kept(sv, tv, *policy, sv[i as int].id@);
    let mut k: usize = 0;
    while k < order.len()
        invariant
            k <= order@.len(),
            sv == snaps@,
            tv == times@,
            sv.len() == tv.len(),
            order@ == newest_first(tv),
            marks_hold(m, *policy, tv),
            forall|j: int| 0 <= j < order@.len() ==> (#[trigger] order@[j]) < tv.len() && tv[order@[j] as int] is Some,
            keep_pred == (|i: usize| id_kept(sv, tv, *policy, sv[i as int].id@)),
            drop_pred == (|i: usize| !id_kept(sv, tv, *policy, sv[i as int].id@)),
            kept@.len() == order@.subrange(0, k as int).filter(keep_pred).len(),
            forall|j: int|
                0 <= j < kept@.len() ==> #[trigger] kept_view(kept@[j]) == (
                    sv[order@.subrange(0, k as int).filter(keep_pred)[j] as int].id@,
                    sv[order@.subrange(0, k as int).filter(keep_pred)[j] as int].path@,
                    sv[order@.subrange(0, k as int).filter(keep_pred)[j] as int].bytes,
                    reasons_for(sv, tv, *policy, sv[order@.subrange(0, k as int).filter(keep_pred)[j] as int].id@),
                ),
            removed@.len() == order@.subrange(0, k as int).filter(drop_pred).len(),
            forall|j: int|
                0 <= j < removed@.len() ==> same_meta(
                    #[trigger] removed@[j],
                    sv[order@.subrange(0, k as int).filter(drop_pred)[j] as int],
                ),
        decreases order.len() - k,
    {
        let i = order[k];
        let s = &snaps[i];
        let reasons = reasons_of(snaps, times, policy, &order, &m, &s.id);
        let ghost pre = order@.subrange(0, k as int);
        assert(order@.subrange(0, k + 1) =~= pre.push(i));
        proof {
            pre.lemma_filter_push(i, keep_pred);
            pre.lemma_filter_push(i, drop_pred);
        }
        if reasons.len() > 0 {
            let ghost before = kept@;
            kept.push(KeptSnapshot { id: s.id.clone(), path: s.path.clone(), bytes: s.bytes, reasons });
            proof {
                assert(keep_pred(i));
                assert(pre.push(i).filter(keep_pred) == pre.filter(keep_pred).push(i));
                assert(pre.push(i).filter(drop_pred) == pre.filter(drop_pred));
                assert forall|j: int| 0 <= j < kept@.len() implies #[trigger] kept_view(kept@[j]) == (
                    sv[pre.push(i).filter(keep_pred)[j] as int].id@,
                    sv[pre.push(i).filter(keep_pred)[j] as int].path@,
                    sv[pre.push(i).filter(keep_pred)[j] as int].bytes,
                    reasons_for(sv, tv, *policy, sv[pre.push(i).filter(keep_pred)[j] as int].id@),
                ) by {
                    if j < before.len() {
                        assert(kept@[j] == before[j]);
                    }
                }
            }
        } else {
            let ghost before = removed@;
            removed.push(copy_meta(s));
            proof {
                assert(drop_pred(i));
                assert(pre.push(i).filter(drop_pred) == pre.filter(drop_pred).push(i));
                assert(pre.push(i).filter(keep_pred) == pre.filter(keep_pred));
                assert forall|j: int| 0 <= j < removed@.len() implies same_meta(
                    #[trigger] removed@[j],
                    sv[pre.push(i).filter(drop_pred)[j] as int],
                ) by {
                    if j < before.len() {
                        assert(removed@[j] == before[j]);
                    }
                }
            }
        }
        k = k + 1;
    }
    assert(order@.subrange(0, order@.len() as int) =~= order@);
    // Unreadable ids, and the bytes of the removed, in input order.
    let mut skipped: Vec<String> = Vec::new();
    let mut total: u64 = 0;
    let mut i: usize = 0;
    while i < snaps.len()
        invariant
            i <= sv.len(),
            sv == snaps@,
            tv == times@,
            sv.len() == tv.len(),
            order@ == newest_first(tv),
            marks_hold(m, *policy, tv),
            skipped@.map_values(|s: String| s@) == unreadable_ids(sv.subrange(0, i as int), tv.subrange(0, i as int)),
            total == removed_bytes(sv, tv, *policy, i as int),
        decreases snaps.len() - i,
    {
        let s = &snaps[i];
        let ghost sp = sv.subrange(0, i as int);
        let ghost tp = tv.subrange(0, i as int);
        assert(sv.subrange(0, i + 1).drop_last() =~= sp);
        assert(tv.subrange(0, i + 1).drop_last() =~= tp);
        proof {
            lemma_removed_bytes_mono(sv, tv, *policy, i as int + 1, sv.len() as int);
        }
        match times[i] {
            None => {
                let ghost before = skipped@.map_values(|s: String| s@);
                skipped.push(s.id.clone());
                assert(skipped@.map_values(|s: String| s@) =~= before.push(s.id@));
            },
            Some(_) => {
                let reasons = reasons_of(snaps, times, policy, &order, &m, &s.id);
                if reasons.len() == 0 {
                    assert(reasons@.map_values(|s: &str| s@).len() == 0);
                    if total > u64::MAX - s.bytes {
                        return None;
                    }
                    total = total + s.bytes;
                } else {
                    assert(reasons@.map_values(|s: &str| s@).len() > 0);
                }
            },
        }
        i = i + 1;
    }
    assert(sv.subrange(0, sv.len() as int) =~= sv);
    assert(tv.subrange(0, tv.len() as int) =~= tv);
    Some(Plan { kept, removed, skipped_unparseable: skipped, total_removed_bytes: total })
}

/// The retention plan for snapshots whose ids read as `times` (`None`
/// where an id has no reading). Kept and removed come newest first.
pub fn plan_retention(snaps: &[SnapshotMeta], times: &[Option<SnapshotTime>], policy: &Policy) -> (plan: Plan)
    requires
        snaps@.len() == times@.len(),
        removed_bytes(snaps@, times@, *policy, snaps@.len() as int) <= u64::MAX,
    ensures
        plan_is(plan, snaps@, times@, *policy),
{
    match plan_retention_checked(snaps, times, policy) {
        Some(plan) => plan,
        None => {
            assert(false);
            Plan { kept: Vec::new(), removed: Vec::new(), skipped_unparseable: Vec::new(), total_removed_bytes: 0 }
        },
    }
}

proof fn lemma_removed_bytes_mono(snaps: Seq<SnapshotMeta>, times: Seq<Option<SnapshotTime>>, p: Policy, a: int, b: int)
    requires
        0 <= a <= b,
    ensures
        removed_bytes(snaps, times, p, a) <= removed_bytes(snaps, times, p, b),
    decreases b - a,
{
    if a < b {
        lemma_removed_bytes_mono(snaps, times, p, a, b - 1);
    }
}

/// Bytes of the snapshots among the first `k` whose id has a reading as a
/// wall-clock time (the only ones a policy can remove).
pub open spec fn readable_bytes(snaps: Seq<SnapshotMeta>, k: int) -> int
    decreases k,
{
    if k <= 0 {
        0
    } else {
        readable_bytes(snaps, k - 1) + if id_stamp(snaps[k - 1].id@) is Some {
            snaps[k - 1].bytes as int
        } else {
            0int
        }
    }
}

proof fn lemma_removed_within_readable(snaps: Seq<SnapshotMeta>, times: Seq<Option<SnapshotTime>>, p: Policy, k: int)
    requires
        0 <= k <= snaps.len(),
        times.len() == snaps.len(),
        forall|i: int| 0 <= i < times.len() && #[trigger] times[i] is Some ==> id_stamp(snaps[i].id@) is Some,
    ensures
        removed_bytes(snaps, times, p, k) <= readable_bytes(snaps, k),
    decreases k,
{
    if k > 0 {
        lemma_removed_within_readable(snaps, times, p, k - 1);
        if is_removed(snaps, times, p, k - 1) {
            assert(times[k - 1] is Some);
        }
    }
}

/// `times` is a reading of the snapshots' ids: an id reads as its
/// wall-clock fields or, when those fields do not read or the time zone has
/// no such local time, not at all.
pub open spec fn reads_ids(times: Seq<Option<SnapshotTime>>, snaps: Seq<SnapshotMeta>) -> bool {
    &&& times.len() == snaps.len()
    &&& forall|i: int|
        0 <= i < times.len() ==> match #[trigger] times[i] {
            Some(t) => id_stamp(snaps[i].id@) == Some(t.stamp),
            None => true,
        }
    &&& forall|i: int| 0 <= i < times.len() && id_stamp(snaps[i].id@) is None ==> #[trigger] times[i] is None
}

/// `plan` is the policy's outcome for some reading of the ids as times.
pub open spec fn plan_from_readings(plan: Plan, snaps: Seq<SnapshotMeta>, p: Policy) -> bool {
    exists|times: Seq<Option<SnapshotTime>>| #[trigger] reads_ids(times, snaps) && plan_is(plan, snaps, times, p)
}

/// Reads each snapshot's id as a local time.
fn read_ids(snaps: &[SnapshotMeta]) -> (times: Vec<Option<SnapshotTime>>)
    ensures
        reads_ids(times@, snaps@),
{
    let mut times: Vec<Option<SnapshotTime>> = Vec::new();
    let mut i: usize = 0;
    while i < snaps.len()
        invariant
            i <= snaps@.len(),
            times@.len() == i,
            forall|j: int|
                0 <= j < i ==> match #[trigger] times@[j] {
                    Some(t) => id_stamp(snaps@[j].id@) == Some(t.stamp),
                    None => true,
                },
            forall|j: int| 0 <= j < i && id_stamp(snaps@[j].id@) is None ==> #[trigger] times@[j] is None,
        decreases snaps.len() - i,
    {
        times.push(parse_id(snaps[i].id.as_str()));
        i = i + 1;
    }
    times
}

proof fn lemma_reading_within_readable(times: Seq<Option<SnapshotTime>>, snaps: Seq<SnapshotMeta>, p: Policy)
    requires
        reads_ids(times, snaps),
    ensures
        removed_bytes(snaps, times, p, snaps.len() as int) <= readable_bytes(snaps, snaps.len() as int),
{
    assert forall|j: int| 0 <= j < times.len() && #[trigger] times[j] is Some implies id_stamp(snaps[j].id@) is Some by {
        assert(match times[j] {
            Some(t) => id_stamp(snaps[j].id@) == Some(t.stamp),
            None => true,
        });
    }
    lemma_removed_within_readable(snaps, times, p, snaps.len() as int);
}

/// Computes the retention plan: each id is read as a local time, then the
/// rules pick what survives (see `plan_retention_checked`). `None` when,
/// for the reading made, the bytes of the removed snapshots add up to more
/// than `u64::MAX`; never when all readable snapshots' bytes fit.
pub fn apply_policy_checked(snaps: &[SnapshotMeta], policy: &Policy) -> (r: Option<Plan>)
    ensures
        r matches Some(plan) ==> plan_from_readings(plan, snaps@, *policy),
        r is None ==> exists|times: Seq<Option<SnapshotTime>>|
            #[trigger] reads_ids(times, snaps@) && removed_bytes(snaps@, times, *policy, snaps@.len() as int)
                > u64::MAX,
        readable_bytes(snaps@, snaps@.len() as int) <= u64::MAX ==> r is Some,
{
    let times = read_ids(snaps);
    let r = plan_retention_checked(snaps, times.as_slice(), policy);
    proof {
        lemma_reading_within_readable(times@, snaps@, *policy);
        assert(reads_ids(times@, snaps@));
    }
    r
}

/// Computes the retention plan: each id is read as a local time, then
/// the rules pick what survives (see `plan_retention`). Ids that do not
/// read are listed in `skipped_unparseable` and never removed.
pub fn apply_policy(snaps: &[SnapshotMeta], policy: &Policy) -> (plan: Plan)
    requires
        readable_bytes(snaps@, snaps@.len() as int) <= u64::MAX,
    ensures
        plan_from_readings(plan, snaps@, *policy),
{
    match apply_policy_checked(snaps, policy) {
        Some(plan) => plan,
        None => {
            assert(false);
            Plan { kept: Vec::new(), removed: Vec::new(), skipped_unparseable: Vec::new(), total_removed_bytes: 0 }
        },
    }
}

// ---------------------------------------------------------------------
// Laws
// ---------------------------------------------------------------------

proof fn lemma_filter_split<A>(s: Seq<A>, keep: spec_fn(A) -> bool, drop: spec_fn(A) -> bool)
    requires
        forall|x: A| #[trigger] drop(x) == !keep(x),
    ensures
        s.filter(keep).len() + s.filter(drop).len() == s.len(),
    decreases s.len(),
{
    reveal(Seq::filter);
    if s.len() > 0 {
        lemma_filter_split(s.drop_last(), keep, drop);
        assert(drop(s.last()) == !keep(s.last()));
    }
}

proof fn lemma_dated_count(snaps: Seq<SnapshotMeta>, times: Seq<Option<SnapshotTime>>)
    requires
        snaps.len() == times.len(),
    ensures
        dated(times).len() + unreadable_ids(snaps, times).len() == snaps.len(),
    decreases snaps.len(),
{
    if snaps.len() > 0 {
        lemma_dated_count(snaps.drop_last(), times.drop_last());
    }
}

proof fn lemma_order_len(times: Seq<Option<SnapshotTime>>)
    ensures
        newest_first(times).len() == dated(times).len(),
{
    crate::sorting::lemma_key_desc_total();
    dated(times).lemma_sort_by_ensures(key_desc_fn());
    vstd::seq_lib::to_multiset_len(dated(times));
    vstd::seq_lib::to_multiset_len(dated(times).sort_by(key_desc_fn()));
}

/// Every snapshot ends up in exactly one of `kept`, `removed` and
/// `skipped_unparseable`: the three lists together are as long as the input.
pub proof fn law_plan_accounts_for_every_snapshot(
    plan: Plan,
    snaps: Seq<SnapshotMeta>,
    times: Seq<Option<SnapshotTime>>,
    p: Policy,
)
    requires
        snaps.len() == times.len(),
        plan_is(plan, snaps, times, p),
    ensures
        plan.kept@.len() + plan.removed@.len() + plan.skipped_unparseable@.len() == snaps.len(),
{
    lemma_filter_split(
        newest_first(times),
        |i: usize| id_kept(snaps, times, p, snaps[i as int].id@),
        |i: usize| !id_kept(snaps, times, p, snaps[i as int].id@),
    );
    lemma_order_len(times);
    lemma_dated_count(snaps, times);
    assert(plan.skipped_unparseable@.map_values(|s: String| s@).len() == plan.skipped_unparseable@.len());
}

/// A snapshot whose id has no reading is never removed: each removed entry
/// is the snapshot at an index whose id has a reading.
pub proof fn law_unreadable_never_removed(
    plan: Plan,
    snaps: Seq<SnapshotMeta>,
    times: Seq<Option<SnapshotTime>>,
    p: Policy,
)
    requires
        snaps.len() == times.len(),
        times.len() <= usize::MAX,
        plan_is(plan, snaps, times, p),
    ensures
        forall|j: int|
            0 <= j < plan.removed@.len() ==> {
                let i = #[trigger] removed_order(snaps, times, p)[j] as int;
                &&& 0 <= i < snaps.len()
                &&& times[i] is Some
                &&& same_meta(plan.removed@[j], snaps[i])
            },
{
    lemma_order_valid(times);
    let ro = removed_order(snaps, times, p);
    assert forall|j: int| 0 <= j < plan.removed@.len() implies {
        let i = #[trigger] removed_order(snaps, times, p)[j] as int;
        &&& 0 <= i < snaps.len()
        &&& times[i] is Some
        &&& same_meta(plan.removed@[j], snaps[i])
    } by {
        let e = ro[j];
        lemma_filter_member(newest_first(times), |i: usize| !id_kept(snaps, times, p, snaps[i as int].id@), j);
        let k = choose|k: int| 0 <= k < newest_first(times).len() && newest_first(times)[k] == e;
        assert(newest_first(times)[k] < times.len());
    }
}

proof fn lemma_filter_member<A>(s: Seq<A>, pred: spec_fn(A) -> bool, j: int)
    requires
        0 <= j < s.filter(pred).len(),
    ensures
        exists|k: int| 0 <= k < s.len() && s[k] == s.filter(pred)[j],
    decreases s.len(),
{
    reveal(Seq::filter);
    if s.len() > 0 {
        let rest = s.drop_last().filter(pred);
        if j < rest.len() {
            lemma_filter_member(s.drop_last(), pred, j);
            let k = choose|k: int| 0 <= k < s.drop_last().len() && s.drop_last()[k] == rest[j];
            assert(s[k] == s.filter(pred)[j]);
        } else {
            assert(s[s.len() - 1] == s.filter(pred)[j]);
        }
    }
}

/// `keep_last = n` keeps the `n` newest snapshots that have a reading.
pub proof fn law_keep_last_keeps_newest(
    snaps: Seq<SnapshotMeta>,
    times: Seq<Option<SnapshotTime>>,
    p: Policy,
    k: int,
)
    requires
        p.keep_last matches Some(n) && k < n,
        0 <= k < newest_first(times).len(),
    ensures
        kept_order(snaps, times, p).contains(newest_first(times)[k]),
{
    let i = newest_first(times)[k];
    assert(position_marked(p, times, Reason::Last, k));
    assert(reason_applies(snaps, times, p, Reason::Last, snaps[i as int].id@));
    assert(reasons_for(snaps, times, p, snaps[i as int].id@).len() > 0);
    newest_first(times).filter_lemma(|i: usize| id_kept(snaps, times, p, snaps[i as int].id@));
}

/// With no rule set nothing is kept, and every snapshot with a reading is
/// removed, newest first.
pub proof fn law_empty_policy_keeps_nothing(
    plan: Plan,
    snaps: Seq<SnapshotMeta>,
    times: Seq<Option<SnapshotTime>>,
    p: Policy,
)
    requires
        p.keep_last is None,
        p.keep_daily is None,
        p.keep_weekly is None,
        p.keep_monthly is None,
        p.keep_yearly is None,
        plan_is(plan, snaps, times, p),
    ensures
        plan.kept@.len() == 0,
        plan.removed@.len() == newest_first(times).len(),
        forall|j: int| 0 <= j < plan.removed@.len() ==> same_meta(#[trigger] plan.removed@[j], snaps[newest_first(times)[j] as int]),
{
    let keep = |i: usize| id_kept(snaps, times, p, snaps[i as int].id@);
    let drop = |i: usize| !id_kept(snaps, times, p, snaps[i as int].id@);
    assert forall|x: Seq<char>| !id_kept(snaps, times, p, x) by {
        assert(!reason_applies(snaps, times, p, Reason::Daily, x));
        assert(!reason_applies(snaps, times, p, Reason::Last, x));
        assert(!reason_applies(snaps, times, p, Reason::Monthly, x));
        assert(!reason_applies(snaps, times, p, Reason::Weekly, x));
        assert(!reason_applies(snaps, times, p, Reason::Yearly, x));
    }
    lemma_filter_all(newest_first(times), drop);
    lemma_filter_split(newest_first(times), keep, drop);
}

proof fn lemma_filter_all<A>(s: Seq<A>, pred: spec_fn(A) -> bool)
    requires
        forall|x: A| #[trigger] pred(x),
    ensures
        s.filter(pred) == s,
    decreases s.len(),
{
    reveal(Seq::filter);
    if s.len() > 0 {
        lemma_filter_all(s.drop_last(), pred);
        assert(pred(s.last()));
        assert(s.drop_last().push(s.last()) =~= s);
    }
}

/// Bytes of a list of snapshots.
pub open spec fn list_bytes(v: Seq<SnapshotMeta>) -> int
    decreases v.len(),
{
    if v.len() == 0 {
        0
    } else {
        list_bytes(v.drop_last()) + v.last().bytes
    }
}

/// Bytes of the snapshots at the given indices.
pub open spec fn idx_bytes(snaps: Seq<SnapshotMeta>, xs: Seq<usize>) -> int
    decreases xs.len(),
{
    if xs.len() == 0 {
        0
    } else {
        idx_bytes(snaps, xs.drop_last()) + snaps[xs.last() as int].bytes
    }
}

/// Bytes of the snapshots below `k` whose index `xs` holds.
pub open spec fn bytes_in(snaps: Seq<SnapshotMeta>, xs: Seq<usize>, k: int) -> int
    decreases k,
{
    if k <= 0 {
        0
    } else {
        bytes_in(snaps, xs, k - 1) + if xs.contains((k - 1) as usize) {
            snaps[k - 1].bytes as int
        } else {
            0int
        }
    }
}

proof fn lemma_idx_bytes_remove(snaps: Seq<SnapshotMeta>, xs: Seq<usize>, j: int)
    requires
        0 <= j < xs.len(),
    ensures
        idx_bytes(snaps, xs) == idx_bytes(snaps, xs.remove(j)) + snaps[xs[j] as int].bytes,
    decreases xs.len(),
{
    if j < xs.len() - 1 {
        lemma_idx_bytes_remove(snaps, xs.drop_last(), j);
        assert(xs.remove(j).drop_last() =~= xs.drop_last().remove(j));
        assert(xs.remove(j).last() == xs.last());
    } else {
        assert(xs.remove(j) =~= xs.drop_last());
    }
}

proof fn lemma_bytes_in_agree(snaps: Seq<SnapshotMeta>, xs: Seq<usize>, ys: Seq<usize>, k: int)
    requires
        forall|i: usize| (i as int) < k ==> (#[trigger] xs.contains(i) <==> ys.contains(i)),
    ensures
        bytes_in(snaps, xs, k) == bytes_in(snaps, ys, k),
    decreases k,
{
    if k > 0 {
        lemma_bytes_in_agree(snaps, xs, ys, k - 1);
        assert(xs.contains((k - 1) as usize) <==> ys.contains((k - 1) as usize));
    }
}

/// Summing over a list of distinct indices below `k` is summing over the
/// indices below `k` that it holds.
proof fn lemma_idx_bytes_as_set(snaps: Seq<SnapshotMeta>, xs: Seq<usize>, k: int)
    requires
        0 <= k <= usize::MAX,
        xs.no_duplicates(),
        forall|j: int| 0 <= j < xs.len() ==> (#[trigger] xs[j]) < k,
    ensures
        idx_bytes(snaps, xs) == bytes_in(snaps, xs, k),
    decreases k,
{
    if k == 0 {
        if xs.len() > 0 {
            assert(xs[0] < 0);
        }
    } else {
        let top = (k - 1) as usize;
        if xs.contains(top) {
            let j = choose|j: int| 0 <= j < xs.len() && xs[j] == top;
            let rest = xs.remove(j);
            lemma_idx_bytes_remove(snaps, xs, j);
            assert(rest.no_duplicates()) by {
                assert forall|a: int, b: int| 0 <= a < rest.len() && 0 <= b < rest.len() && a != b implies rest[a]
                    != rest[b] by {
                    let a0 = if a < j { a } else { a + 1 };
                    let b0 = if b < j { b } else { b + 1 };
                    assert(rest[a] == xs[a0] && rest[b] == xs[b0]);
                }
            }
            assert forall|l: int| 0 <= l < rest.len() implies (#[trigger] rest[l]) < k - 1 by {
                let l0 = if l < j { l } else { l + 1 };
                assert(rest[l] == xs[l0]);
                assert(l0 != j);
            }
            lemma_idx_bytes_as_set(snaps, rest, k - 1);
            assert forall|i: usize| (i as int) < k - 1 implies (#[trigger] rest.contains(i) <==> xs.contains(i)) by {
                if xs.contains(i) {
                    let l = choose|l: int| 0 <= l < xs.len() && xs[l] == i;
                    assert(l != j);
                    let l1 = if l < j { l } else { l - 1 };
                    assert(rest[l1] == xs[l]);
                }
                if rest.contains(i) {
                    let l = choose|l: int| 0 <= l < rest.len() && rest[l] == i;
                    let l0 = if l < j { l } else { l + 1 };
                    assert(rest[l] == xs[l0]);
                }
            }
            lemma_bytes_in_agree(snaps, rest, xs, k - 1);
        } else {
            assert forall|l: int| 0 <= l < xs.len() implies (#[trigger] xs[l]) < k - 1 by {
                assert(xs[l] != top);
            }
            lemma_idx_bytes_as_set(snaps, xs, k - 1);
        }
    }
}

proof fn lemma_dated_increasing(times: Seq<Option<SnapshotTime>>)
    requires
        times.len() <= usize::MAX,
    ensures
        forall|a: int, b: int| 0 <= a < b < dated(times).len() ==> dated(times)[a].1 < dated(times)[b].1,
    decreases times.len(),
{
    if times.len() > 0 {
        lemma_dated_increasing(times.drop_last());
        lemma_dated_elems(times.drop_last());
    }
}

/// The newest-first order lists each dated snapshot exactly once.
proof fn lemma_order_members(times: Seq<Option<SnapshotTime>>)
    requires
        times.len() <= usize::MAX,
    ensures
        newest_first(times).no_duplicates(),
        forall|i: usize| (i as int) < times.len() ==> (#[trigger] newest_first(times).contains(i) <==> times[i as int] is Some),
{
    let d = dated(times);
    let sorted = d.sort_by(key_desc_fn());
    crate::sorting::lemma_key_desc_total();
    d.lemma_sort_by_ensures(key_desc_fn());
    lemma_dated_elems(times);
    lemma_dated_increasing(times);
    lemma_dated_index_present(times);
    assert(d.no_duplicates());
    d.lemma_multiset_has_no_duplicates();
    assert forall|x: (i128, usize)| sorted.to_multiset().contains(x) implies sorted.to_multiset().count(x) == 1 by {
        assert(d.to_multiset().contains(x));
    }
    sorted.lemma_multiset_has_no_duplicates_conv();
    vstd::seq_lib::to_multiset_len(d);
    vstd::seq_lib::to_multiset_len(sorted);
    assert forall|x: (i128, usize)| sorted.contains(x) <==> d.contains(x) by {
        vstd::seq_lib::to_multiset_contains(sorted, x);
        vstd::seq_lib::to_multiset_contains(d, x);
    }
    let nf = newest_first(times);
    assert forall|a: int, b: int| 0 <= a < nf.len() && 0 <= b < nf.len() && a != b implies nf[a] != nf[b] by {
        assert(sorted.contains(sorted[a]) && sorted.contains(sorted[b]));
        let ja = choose|j: int| 0 <= j < d.len() && d[j] == sorted[a];
        let jb = choose|j: int| 0 <= j < d.len() && d[j] == sorted[b];
        if nf[a] == nf[b] {
            assert(sorted[a] == sorted[b]);
        }
    }
    assert forall|i: usize| (i as int) < times.len() implies (#[trigger] nf.contains(i) <==> times[i as int] is Some) by {
        if nf.contains(i) {
            let a = choose|a: int| 0 <= a < nf.len() && nf[a] == i;
            assert(sorted.contains(sorted[a]));
            let j = choose|j: int| 0 <= j < d.len() && d[j] == sorted[a];
        }
        if times[i as int] is Some {
            let j = choose|j: int| 0 <= j < d.len() && d[j].1 == i;
            assert(d.contains(d[j]));
            assert(sorted.contains(d[j]));
            let a = choose|a: int| 0 <= a < sorted.len() && sorted[a] == d[j];
            assert(nf[a] == i);
        }
    }
}

proof fn lemma_dated_index_present(times: Seq<Option<SnapshotTime>>)
    requires
        times.len() <= usize::MAX,
    ensures
        forall|i: usize| (i as int) < times.len() && #[trigger] times[i as int] is Some ==> exists|j: int| 0 <= j < dated(times).len() && dated(times)[j].1 == i,
    decreases times.len(),
{
    if times.len() > 0 {
        lemma_dated_index_present(times.drop_last());
        let d = dated(times);
        let dp = dated(times.drop_last());
        assert forall|i: usize| (i as int) < times.len() && #[trigger] times[i as int] is Some implies exists|j: int| 0 <= j < d.len() && d[j].1 == i by {
            if (i as int) < times.len() - 1 {
                assert(times.drop_last()[i as int] == times[i as int]);
                let j = choose|j: int| 0 <= j < dp.len() && dp[j].1 == i;
                assert(d[j] == dp[j]);
            } else {
                assert(d[d.len() - 1].1 == i);
            }
        }
    }
}

proof fn lemma_filter_no_duplicates<A>(s: Seq<A>, pred: spec_fn(A) -> bool)
    requires
        s.no_duplicates(),
    ensures
        s.filter(pred).no_duplicates(),
        forall|x: A| #[trigger] s.filter(pred).contains(x) <==> (s.contains(x) && pred(x)),
    decreases s.len(),
{
    reveal(Seq::filter);
    if s.len() > 0 {
        let rest = s.drop_last();
        assert(rest.no_duplicates()) by {
            assert forall|a: int, b: int| 0 <= a < rest.len() && 0 <= b < rest.len() && a != b implies rest[a] != rest[b] by {
                assert(rest[a] == s[a] && rest[b] == s[b]);
            }
        }
        lemma_filter_no_duplicates(rest, pred);
        let fr = rest.filter(pred);
        let f = s.filter(pred);
        let last = s[s.len() - 1];
        assert(s.last() == last);
        let in_rest = rest.contains(last);
        assert(!in_rest) by {
            if rest.contains(last) {
                let j = choose|j: int| 0 <= j < rest.len() && rest[j] == last;
                assert(s[j] == rest[j]);
            }
        }
        if pred(last) {
            assert(f == fr.push(last));
        } else {
            assert(f == fr);
        }
        assert forall|x: A| #[trigger] f.contains(x) <==> (s.contains(x) && pred(x)) by {
            if s.contains(x) && pred(x) {
                let j = choose|j: int| 0 <= j < s.len() && s[j] == x;
                if j < s.len() - 1 {
                    assert(rest[j] == x);
                    assert(rest.contains(x));
                    assert(fr.contains(x));
                    let l = choose|l: int| 0 <= l < fr.len() && fr[l] == x;
                    assert(f[l] == x);
                } else {
                    assert(f[f.len() - 1] == x);
                }
            }
            if f.contains(x) {
                let l = choose|l: int| 0 <= l < f.len() && f[l] == x;
                if l < fr.len() {
                    assert(fr[l] == x);
                    assert(fr.contains(x));
                    let j = choose|j: int| 0 <= j < rest.len() && rest[j] == x;
                    assert(s[j] == x);
                } else {
                    assert(x == last);
                    assert(s[s.len() - 1] == x);
                }
            }
        }
        assert forall|a: int, b: int| 0 <= a < f.len() && 0 <= b < f.len() && a != b implies f[a] != f[b] by {
            if a < fr.len() && b < fr.len() {
                assert(f[a] == fr[a] && f[b] == fr[b]);
            } else if a < fr.len() {
                assert(f[b] == last && f[a] == fr[a]);
                assert(fr.contains(fr[a]));
            } else if b < fr.len() {
                assert(f[a] == last && f[b] == fr[b]);
                assert(fr.contains(fr[b]));
            }
        }
    }
}

proof fn lemma_list_bytes_matches(plan: Plan, snaps: Seq<SnapshotMeta>, ro: Seq<usize>, m: int)
    requires
        0 <= m <= ro.len(),
        plan.removed@.len() == ro.len(),
        forall|j: int| 0 <= j < ro.len() ==> same_meta(#[trigger] plan.removed@[j], snaps[ro[j] as int]),
    ensures
        list_bytes(plan.removed@.subrange(0, m)) == idx_bytes(snaps, ro.subrange(0, m)),
    decreases m,
{
    if m > 0 {
        lemma_list_bytes_matches(plan, snaps, ro, m - 1);
        assert(plan.removed@.subrange(0, m).drop_last() =~= plan.removed@.subrange(0, m - 1));
        assert(ro.subrange(0, m).drop_last() =~= ro.subrange(0, m - 1));
        assert(same_meta(plan.removed@[m - 1], snaps[ro[m - 1] as int]));
    }
}

proof fn lemma_removed_bytes_as_set(snaps: Seq<SnapshotMeta>, times: Seq<Option<SnapshotTime>>, p: Policy, xs: Seq<usize>, k: int)
    requires
        0 <= k <= times.len(),
        times.len() <= usize::MAX,
        forall|i: usize| (i as int) < times.len() ==> (#[trigger] xs.contains(i) <==> is_removed(snaps, times, p, i as int)),
    ensures
        removed_bytes(snaps, times, p, k) == bytes_in(snaps, xs, k),
    decreases k,
{
    if k > 0 {
        lemma_removed_bytes_as_set(snaps, times, p, xs, k - 1);
    }
}

/// `total_removed_bytes` is the sum of the bytes of the removed list.
pub proof fn law_total_is_sum_of_removed(
    plan: Plan,
    snaps: Seq<SnapshotMeta>,
    times: Seq<Option<SnapshotTime>>,
    p: Policy,
)
    requires
        snaps.len() == times.len(),
        times.len() <= usize::MAX,
        plan_is(plan, snaps, times, p),
    ensures
        plan.total_removed_bytes == list_bytes(plan.removed@),
{
    let n = times.len() as int;
    let keep = |i: usize| id_kept(snaps, times, p, snaps[i as int].id@);
    let drop = |i: usize| !id_kept(snaps, times, p, snaps[i as int].id@);
    let ro = removed_order(snaps, times, p);
    lemma_order_members(times);
    lemma_order_valid(times);
    lemma_filter_no_duplicates(newest_first(times), drop);
    assert(ro =~= newest_first(times).filter(drop));
    assert forall|j: int| 0 <= j < ro.len() implies (#[trigger] ro[j]) < n by {
        assert(ro.contains(ro[j]));
        assert(newest_first(times).contains(ro[j]));
        let a = choose|a: int| 0 <= a < newest_first(times).len() && newest_first(times)[a] == ro[j];
    }
    lemma_idx_bytes_as_set(snaps, ro, n);
    assert forall|i: usize| (i as int) < times.len() implies (#[trigger] ro.contains(i) <==> is_removed(snaps, times, p, i as int)) by {
        assert(drop(i) == !id_kept(snaps, times, p, snaps[i as int].id@));
        assert(newest_first(times).contains(i) <==> times[i as int] is Some);
    }
    lemma_removed_bytes_as_set(snaps, times, p, ro, n);
    lemma_list_bytes_matches(plan, snaps, ro, ro.len() as int);
    assert(plan.removed@.subrange(0, ro.len() as int) =~= plan.removed@);
    assert(ro.subrange(0, ro.len() as int) =~= ro);
}

/// Labels in strictly increasing order of their first character.
pub open spec fn first_chars_increasing(v: Seq<Seq<char>>) -> bool {
    &&& forall|i: int| 0 <= i < v.len() ==> (#[trigger] v[i]).len() > 0
    &&& forall|i: int, j: int| 0 <= i < j < v.len() ==> (#[trigger] v[i])[0] < (#[trigger] v[j])[0]
}

proof fn lemma_append_label(v: Seq<Seq<char>>, b: bool, r: Reason)
    requires
        first_chars_increasing(v),
        reason_label(r).len() > 0,
        forall|i: int| 0 <= i < v.len() ==> (#[trigger] v[i])[0] < reason_label(r)[0],
    ensures
        first_chars_increasing(v + label_if(b, r)),
{
    let w = v + label_if(b, r);
    assert forall|i: int, j: int| 0 <= i < j < w.len() implies (#[trigger] w[i])[0] < (#[trigger] w[j])[0] by {
        if j < v.len() {
            assert(w[i] == v[i] && w[j] == v[j]);
        } else {
            assert(w[i] == v[i]);
            assert(w[j] == reason_label(r));
        }
    }
    assert forall|i: int| 0 <= i < w.len() implies (#[trigger] w[i]).len() > 0 by {
        if i < v.len() {
            assert(w[i] == v[i]);
        } else {
            assert(w[i] == reason_label(r));
        }
    }
}

/// The reasons listed for a kept snapshot are sorted and hold no name
/// twice: each rule appears at most once, in alphabetical order.
pub proof fn law_reasons_sorted_and_distinct(
    snaps: Seq<SnapshotMeta>,
    times: Seq<Option<SnapshotTime>>,
    p: Policy,
    id: Seq<char>,
)
    ensures
        first_chars_increasing(reasons_for(snaps, times, p, id)),
        reasons_for(snaps, times, p, id).no_duplicates(),
        forall|i: int, j: int|
            0 <= i < j < reasons_for(snaps, times, p, id).len() ==> crate::text::lex_lt(
                #[trigger] reasons_for(snaps, times, p, id)[i],
                #[trigger] reasons_for(snaps, times, p, id)[j],
            ),
{
    reveal_strlit("daily");
    reveal_strlit("last");
    reveal_strlit("monthly");
    reveal_strlit("weekly");
    reveal_strlit("yearly");
    let d = label_if(reason_applies(snaps, times, p, Reason::Daily, id), Reason::Daily);
    let l = label_if(reason_applies(snaps, times, p, Reason::Last, id), Reason::Last);
    let m = label_if(reason_applies(snaps, times, p, Reason::Monthly, id), Reason::Monthly);
    let w = label_if(reason_applies(snaps, times, p, Reason::Weekly, id), Reason::Weekly);
    let y = label_if(reason_applies(snaps, times, p, Reason::Yearly, id), Reason::Yearly);
    let e = Seq::<Seq<char>>::empty();
    assert(e + d =~= d);
    lemma_append_label(e, reason_applies(snaps, times, p, Reason::Daily, id), Reason::Daily);
    lemma_append_label(d, reason_applies(snaps, times, p, Reason::Last, id), Reason::Last);
    lemma_append_label(d + l, reason_applies(snaps, times, p, Reason::Monthly, id), Reason::Monthly);
    lemma_append_label(d + l + m, reason_applies(snaps, times, p, Reason::Weekly, id), Reason::Weekly);
    lemma_append_label(d + l + m + w, reason_applies(snaps, times, p, Reason::Yearly, id), Reason::Yearly);
    let r = reasons_for(snaps, times, p, id);
    assert(r == d + l + m + w + y);
    assert forall|i: int, j: int| 0 <= i < j < r.len() implies crate::text::lex_lt(#[trigger] r[i], #[trigger] r[j]) by {
        assert(r[i][0] < r[j][0]);
        assert(r[i].len() > 0 && r[j].len() > 0);
    }
    assert forall|i: int, j: int| 0 <= i < r.len() && 0 <= j < r.len() && i != j implies r[i] != r[j] by {
        if i < j {
            assert(r[i][0] < r[j][0]);
        } else {
            assert(r[j][0] < r[i][0]);
        }
    }
}

/// Two local times share a rule's bucket exactly when they share its
/// calendar unit: the same date for `daily`, the same ISO year and week for
/// `weekly`, the same year and month for `monthly`, the same year for
/// `yearly`.
pub proof fn law_buckets_are_calendar_units(a: LocalStamp, b: LocalStamp)
    ensures
        (stamp_key(Reason::Daily, a) == stamp_key(Reason::Daily, b)) <==> (a.year == b.year && a.month == b.month
            && a.day == b.day),
        (stamp_key(Reason::Weekly, a) == stamp_key(Reason::Weekly, b)) <==> (a.iso_year == b.iso_year
            && a.iso_week == b.iso_week),
        (stamp_key(Reason::Monthly, a) == stamp_key(Reason::Monthly, b)) <==> (a.year == b.year && a.month
            == b.month),
        (stamp_key(Reason::Yearly, a) == stamp_key(Reason::Yearly, b)) <==> a.year == b.year,
{
}

/// A bucket rule picks at most one snapshot per calendar unit: two
/// different positions of the newest-first order that the rule marks never
/// share a date (`daily`), an ISO week (`weekly`), a month (`monthly`) or a
/// year (`yearly`).
pub proof fn law_one_pick_per_calendar_unit(p: Policy, times: Seq<Option<SnapshotTime>>, r: Reason, j: int, k: int)
    requires
        times.len() <= usize::MAX,
        0 <= j < k < newest_first(times).len(),
        position_marked(p, times, r, j),
        position_marked(p, times, r, k),
        r != Reason::Last,
    ensures
        ({
            let a = times[newest_first(times)[j] as int]->0.stamp;
            let b = times[newest_first(times)[k] as int]->0.stamp;
            &&& r == Reason::Daily ==> !(a.year == b.year && a.month == b.month && a.day == b.day)
            &&& r == Reason::Weekly ==> !(a.iso_year == b.iso_year && a.iso_week == b.iso_week)
            &&& r == Reason::Monthly ==> !(a.year == b.year && a.month == b.month)
            &&& r == Reason::Yearly ==> a.year != b.year
        }),
{
    lemma_order_valid(times);
    let order = newest_first(times);
    let keys = keys_along(times, order, r);
    let a = times[order[j] as int]->0.stamp;
    let b = times[order[k] as int]->0.stamp;
    assert(order[j] < times.len() && times[order[j] as int] is Some);
    assert(order[k] < times.len() && times[order[k] as int] is Some);
    assert(keys[j] == stamp_key(r, a));
    assert(keys[k] == stamp_key(r, b));
    assert(keys.subrange(0, k)[j] == keys[j]);
    assert(keys[j] != keys[k]);
    law_buckets_are_calendar_units(a, b);
}

} // verus!
