//! Increments versioned by epoch.
//!
//! A delta history maps epochs to signed increments of a field. The total in
//! effect at an epoch is the sum of the increments up to it. Increments that
//! fall behind the look-back window are folded into one increment at the start
//! of the window, which leaves every total inside the window as it was.

use crate::epoched::{expired_at, increasing, locate, prune_entries};
use crate::types::{DynEpochOffset, Epoch, EpochWindow, PosParams, TokenChange};
use vstd::prelude::*;

verus! {

/// The sum of the increments of `h` at the epochs from zero up to `e`.
pub open spec fn sum_upto(h: Map<int, int>, e: int) -> int
    decreases e + 1,
{
    if e < 0 {
        0
    } else {
        sum_upto(h, e - 1) + if h.dom().contains(e) {
            h[e]
        } else {
            0
        }
    }
}

/// The total in effect at `e`. It is `None` where `e` precedes every entry.
pub open spec fn total_at(h: Map<int, int>, e: int) -> Option<int> {
    if expired_at(h, e) {
        None
    } else {
        Some(sum_upto(h, e))
    }
}

/// `h` with the increments up to `cutoff` folded into one increment at
/// `cutoff`.
pub open spec fn folded(h: Map<int, int>, cutoff: int) -> Map<int, int> {
    if expired_at(h, cutoff) {
        h
    } else {
        Map::new(
            |k: int| k == cutoff || (h.dom().contains(k) && k > cutoff),
            |k: int|
                if k == cutoff {
                    sum_upto(h, cutoff)
                } else {
                    h[k]
                },
        )
    }
}

/// `h` with `delta` more at `target`.
pub open spec fn added(h: Map<int, int>, target: int, delta: int) -> Map<int, int> {
    h.insert(
        target,
        delta + if h.dom().contains(target) {
            h[target]
        } else {
            0
        },
    )
}

/// `h` after the increment `delta` was set at `epoch`: it lands
/// `pipeline_length` ahead, and what lies more than `unbonding_length` back is folded.
pub open spec fn after_add(h: Map<int, int>, delta: int, epoch: Epoch, params: PosParams) -> Map<
    int,
    int,
> {
    let window = EpochWindow { epoch, params };
    added(folded(h, window.start()), window.horizon(DynEpochOffset::PipelineLen), delta)
}

/// Every entry of `h` is at epoch zero or later.
pub open spec fn from_zero(h: Map<int, int>) -> bool {
    forall|k: int| h.dom().contains(k) ==> k >= 0
}

/// Two histories that agree on the epochs from `a + 1` to `b` grow by the same
/// amount between `a` and `b`.
pub proof fn lemma_sum_growth(g: Map<int, int>, h: Map<int, int>, a: int, b: int)
    requires
        a <= b,
        forall|k: int| a < k <= b ==> (g.dom().contains(k) <==> h.dom().contains(k)),
        forall|k: int| a < k <= b && h.dom().contains(k) ==> g[k] == h[k],
    ensures
        sum_upto(g, b) - sum_upto(g, a) == sum_upto(h, b) - sum_upto(h, a),
    decreases b - a,
{
    if a < b {
        lemma_sum_growth(g, h, a, b - 1);
        if b < 0 {
            assert(sum_upto(g, b) == 0 && sum_upto(h, b) == 0);
        }
    }
}

/// A history without entries up to `e` sums to zero there.
pub proof fn lemma_sum_empty_prefix(h: Map<int, int>, e: int)
    requires
        forall|k: int| h.dom().contains(k) && 0 <= k ==> e < k,
    ensures
        sum_upto(h, e) == 0,
    decreases e + 1,
{
    if e >= 0 {
        lemma_sum_empty_prefix(h, e - 1);
    }
}

/// Folding leaves every total from the cutoff on as it was, and expires every
/// query before the cutoff.
pub proof fn lemma_folded_total_at(h: Map<int, int>, cutoff: int, e: int)
    requires
        from_zero(h),
        cutoff >= 0,
    ensures
        e >= cutoff ==> total_at(folded(h, cutoff), e) == total_at(h, e),
        e >= cutoff ==> sum_upto(folded(h, cutoff), e) == sum_upto(h, e),
        e < cutoff ==> total_at(folded(h, cutoff), e) is None,
{
    let f = folded(h, cutoff);
    if expired_at(h, cutoff) {
    } else {
        let w = choose|k: int| h.dom().contains(k) && !(cutoff < k);
        if e >= cutoff {
            assert(f.dom().contains(cutoff));
            assert(!expired_at(f, e));
            assert(h.dom().contains(w) && !(e < w));
            lemma_sum_empty_prefix(f, cutoff - 1);
            assert(sum_upto(f, cutoff) == sum_upto(h, cutoff));
            lemma_sum_growth(f, h, cutoff, e);
        }
    }
}

/// An increment at `target` raises every total from `target` on by that
/// increment and leaves the totals before it as they were.
pub proof fn lemma_added_sum(h: Map<int, int>, target: int, delta: int, e: int)
    requires
        target >= 0,
    ensures
        e >= target ==> sum_upto(added(h, target, delta), e) == sum_upto(h, e) + delta,
        e < target ==> sum_upto(added(h, target, delta), e) == sum_upto(h, e),
{
    let g = added(h, target, delta);
    if e < target {
        if e >= -1 {
            lemma_sum_growth(g, h, -1, e);
        } else {
        }
    } else {
        lemma_sum_growth(g, h, -1, target - 1);
        lemma_sum_growth(g, h, target, e);
    }
}

/// After an increment was set at `epoch`, the totals inside the window of that
/// epoch and before the epoch it lands on are as they were; from there on they
/// are higher by the increment; and every query before the window has expired.
pub proof fn lemma_after_add_total_at(
    h: Map<int, int>,
    delta: int,
    epoch: Epoch,
    params: PosParams,
    e: int,
)
    requires
        from_zero(h),
    ensures
        e < epoch.minus(params.unbonding_length) ==> total_at(
            after_add(h, delta, epoch, params),
            e,
        ) is None,
        epoch.minus(params.unbonding_length) <= e < epoch.plus(params.pipeline_length) ==> total_at(
            after_add(h, delta, epoch, params),
            e,
        ) == total_at(h, e),
        epoch.plus(params.pipeline_length) <= e ==> total_at(after_add(h, delta, epoch, params), e)
            == Some(sum_upto(h, e) + delta),
{
    let cutoff = epoch.minus(params.unbonding_length);
    let target = epoch.plus(params.pipeline_length);
    let f = folded(h, cutoff);
    let g = added(f, target, delta);
    lemma_folded_total_at(h, cutoff, e);
    lemma_added_sum(f, target, delta, e);
    if e < cutoff {
        assert(expired_at(f, e));
        assert(expired_at(g, e));
    } else if e < target {
        assert forall|k: int| f.dom().contains(k) implies g.dom().contains(k) by {}
        assert forall|k: int| g.dom().contains(k) && k != target implies f.dom().contains(k) by {}
        assert(expired_at(f, e) <==> expired_at(g, e));
    } else {
        assert(g.dom().contains(target));
        assert(!expired_at(g, e));
        if expired_at(h, e) {
            lemma_sum_empty_prefix(h, e);
            assert(expired_at(h, cutoff));
        }
    }
}

/// `h` after each increment of `writes` was set at its epoch, in the order of
/// the list.
pub open spec fn after_adds(h: Map<int, int>, writes: Seq<(int, Epoch)>, params: PosParams) -> Map<
    int,
    int,
>
    decreases writes.len(),
{
    if writes.len() == 0 {
        h
    } else {
        after_add(
            after_adds(h, writes.drop_last(), params),
            writes.last().0,
            writes.last().1,
            params,
        )
    }
}

/// Setting increments leaves every entry at epoch zero or later.
pub proof fn lemma_after_adds_from_zero(
    h: Map<int, int>,
    writes: Seq<(int, Epoch)>,
    params: PosParams,
)
    requires
        from_zero(h),
    ensures
        from_zero(after_adds(h, writes, params)),
    decreases writes.len(),
{
    if writes.len() > 0 {
        lemma_after_adds_from_zero(h, writes.drop_last(), params);
    }
}

/// After any sequence of writes, every query more than `unbonding_length`
/// epochs before the epoch of the last write has expired.
pub proof fn lemma_adds_expire_before_window(
    h: Map<int, int>,
    writes: Seq<(int, Epoch)>,
    params: PosParams,
    e: int,
)
    requires
        from_zero(h),
        writes.len() > 0,
        e < writes.last().1.minus(params.unbonding_length),
    ensures
        total_at(after_adds(h, writes, params), e) is None,
{
    lemma_after_adds_from_zero(h, writes.drop_last(), params);
    lemma_after_add_total_at(
        after_adds(h, writes.drop_last(), params),
        writes.last().0,
        writes.last().1,
        params,
        e,
    );
}

/// The increments that a sequence of running totals stands for.
pub closed spec fn increments_of(s: Seq<(u64, i128)>) -> Map<int, int> {
    Map::new(
        |k: int| exists|i: int| 0 <= i < s.len() && s[i].0 == k,
        |k: int|
            {
                let i = choose|i: int| 0 <= i < s.len() && s[i].0 == k;
                s[i].1 - total_before(s, i)
            },
    )
}

/// The running total before the entry at index `i`.
pub closed spec fn total_before(s: Seq<(u64, i128)>, i: int) -> int {
    if i <= 0 {
        0
    } else {
        s[i - 1].1 as int
    }
}

proof fn lemma_increment_entry(s: Seq<(u64, i128)>, i: int)
    requires
        increasing(s),
        0 <= i < s.len(),
    ensures
        increments_of(s).dom().contains(s[i].0 as int),
        increments_of(s)[s[i].0 as int] == s[i].1 - total_before(s, i),
{
    let k = s[i].0 as int;
    let c = choose|j: int| 0 <= j < s.len() && s[j].0 == k;
    assert(c == i) by {
        if c < i {
            assert(s[c].0 < s[i].0);
        } else if i < c {
            assert(s[i].0 < s[c].0);
        }
    }
}

/// The sum of the increments up to `e` is the running total of the newest
/// entry at or before `e`.
proof fn lemma_sum_is_running_total(s: Seq<(u64, i128)>, e: int, n: int)
    requires
        increasing(s),
        0 <= n <= s.len(),
        forall|j: int| 0 <= j < n ==> s[j].0 <= e,
        forall|j: int| n <= j < s.len() ==> s[j].0 > e,
    ensures
        sum_upto(increments_of(s), e) == total_before(s, n),
        expired_at(increments_of(s), e) <==> n == 0,
    decreases e + 1,
{
    let h = increments_of(s);
    if n > 0 {
        lemma_increment_entry(s, n - 1);
    }
    assert forall|k: int| h.dom().contains(k) && n == 0 implies e < k by {
        let j = choose|j: int| 0 <= j < s.len() && s[j].0 == k;
        assert(s[j].0 > e);
    }
    if e < 0 {
    } else if n > 0 && s[n - 1].0 == e {
        assert forall|j: int| 0 <= j < n - 1 implies s[j].0 <= e - 1 by {
            assert(s[j].0 < s[n - 1].0);
        }
        lemma_sum_is_running_total(s, e - 1, n - 1);
    } else {
        lemma_sum_is_running_total(s, e - 1, n);
        if h.dom().contains(e) {
            let j = choose|j: int| 0 <= j < s.len() && s[j].0 == e;
            if j < n {
                assert(s[j].0 <= s[n - 1].0);
            }
        }
    }
}

proof fn lemma_fold_entries(s: Seq<(u64, i128)>, cutoff: u64, i: int, t: Seq<(u64, i128)>)
    requires
        increasing(s),
        increasing(t),
        0 <= i < s.len(),
        s[i].0 <= cutoff,
        forall|j: int| i < j < s.len() ==> s[j].0 > cutoff,
        t == seq![(cutoff, s[i].1)] + s.subrange(i + 1, s.len() as int),
    ensures
        increments_of(t) == folded(increments_of(s), cutoff as int),
{
    let h = increments_of(s);
    let g = increments_of(t);
    let f = folded(h, cutoff as int);
    lemma_increment_entry(s, i);
    assert(!expired_at(h, cutoff as int));
    assert forall|j: int| 0 <= j < i + 1 implies s[j].0 <= cutoff by {
        if j < i {
            assert(s[j].0 < s[i].0);
        }
    }
    lemma_sum_is_running_total(s, cutoff as int, i + 1);
    assert forall|j: int| 1 <= j < t.len() implies t[j] == s[i + j] && total_before(t, j)
        == total_before(s, i + j) by {}
    assert forall|k: int| g.dom().contains(k) <==> f.dom().contains(k) by {
        if g.dom().contains(k) {
            let j = choose|j: int| 0 <= j < t.len() && t[j].0 == k;
            if j > 0 {
                lemma_increment_entry(s, i + j);
            }
        }
        if f.dom().contains(k) {
            if k == cutoff {
                lemma_increment_entry(t, 0);
            } else {
                let j = choose|j: int| 0 <= j < s.len() && s[j].0 == k;
                if j <= i {
                    assert(s[j].0 <= s[i].0);
                }
                assert(t[j - i] == s[j]);
                lemma_increment_entry(t, j - i);
            }
        }
    }
    assert forall|k: int| g.dom().contains(k) implies g[k] == f[k] by {
        let j = choose|j: int| 0 <= j < t.len() && t[j].0 == k;
        lemma_increment_entry(t, j);
        if j > 0 {
            lemma_increment_entry(s, i + j);
        }
    }
    assert(g =~= f);
}

proof fn lemma_insert_zero(t: Seq<(u64, i128)>, p: int, target: u64, u: Seq<(u64, i128)>)
    requires
        increasing(t),
        0 <= p <= t.len(),
        forall|j: int| 0 <= j < p ==> t[j].0 < target,
        forall|j: int| p <= j < t.len() ==> t[j].0 > target,
        u.len() == t.len() + 1,
        u[p].0 == target,
        u[p].1 == total_before(t, p),
        u == t.insert(p, u[p]),
    ensures
        increasing(u),
        !increments_of(t).dom().contains(target as int),
        increments_of(u) == increments_of(t).insert(target as int, 0),
{
    let h = increments_of(t);
    let g = increments_of(u);
    let w = h.insert(target as int, 0);
    assert forall|j: int| 0 <= j < p implies u[j] == t[j] && total_before(u, j) == total_before(
        t,
        j,
    ) by {}
    assert forall|j: int| p < j < u.len() implies u[j] == t[j - 1] && total_before(u, j)
        == total_before(t, j - 1) by {}
    assert(total_before(u, p) == total_before(t, p));
    assert(increasing(u)) by {
        assert forall|a: int, b: int| 0 <= a < b < u.len() implies u[a].0 < u[b].0 by {
            if a < p && b > p {
                assert(t[a].0 < target && t[b - 1].0 > target);
            } else if a < p && b < p {
                assert(t[a].0 < t[b].0);
            } else if a > p {
                assert(t[a - 1].0 < t[b - 1].0);
            }
        }
    }
    if h.dom().contains(target as int) {
        let j = choose|j: int| 0 <= j < t.len() && t[j].0 == target;
        assert(false);
    }
    assert forall|k: int| g.dom().contains(k) <==> w.dom().contains(k) by {
        if g.dom().contains(k) {
            let j = choose|j: int| 0 <= j < u.len() && u[j].0 == k;
            if j < p {
                lemma_increment_entry(t, j);
            } else if j > p {
                lemma_increment_entry(t, j - 1);
            }
        }
        if w.dom().contains(k) {
            if k == target {
                lemma_increment_entry(u, p);
            } else {
                let j = choose|j: int| 0 <= j < t.len() && t[j].0 == k;
                if j < p {
                    lemma_increment_entry(u, j);
                } else {
                    assert(u[j + 1] == t[j]);
                    lemma_increment_entry(u, j + 1);
                }
            }
        }
    }
    assert forall|k: int| g.dom().contains(k) implies g[k] == w[k] by {
        let j = choose|j: int| 0 <= j < u.len() && u[j].0 == k;
        lemma_increment_entry(u, j);
        if j < p {
            lemma_increment_entry(t, j);
        } else if j > p {
            lemma_increment_entry(t, j - 1);
        }
    }
    assert(g =~= w);
}

proof fn lemma_raise_entries(u: Seq<(u64, i128)>, p: int, delta: int, v: Seq<(u64, i128)>)
    requires
        increasing(u),
        0 <= p < u.len(),
        v.len() == u.len(),
        forall|j: int| 0 <= j < p ==> v[j] == u[j],
        forall|j: int| p <= j < u.len() ==> v[j].0 == u[j].0 && v[j].1 == u[j].1 + delta,
    ensures
        increasing(v),
        increments_of(u).dom().contains(u[p].0 as int),
        increments_of(v) == increments_of(u).insert(
            u[p].0 as int,
            increments_of(u)[u[p].0 as int] + delta,
        ),
{
    let h = increments_of(u);
    let g = increments_of(v);
    lemma_increment_entry(u, p);
    let w = h.insert(u[p].0 as int, h[u[p].0 as int] + delta);
    assert(increasing(v)) by {
        assert forall|a: int, b: int| 0 <= a < b < v.len() implies v[a].0 < v[b].0 by {
            assert(u[a].0 < u[b].0);
        }
    }
    assert forall|k: int| g.dom().contains(k) <==> w.dom().contains(k) by {
        if g.dom().contains(k) {
            let j = choose|j: int| 0 <= j < v.len() && v[j].0 == k;
            lemma_increment_entry(u, j);
        }
        if w.dom().contains(k) && k != u[p].0 {
            let j = choose|j: int| 0 <= j < u.len() && u[j].0 == k;
            lemma_increment_entry(v, j);
        }
        if k == u[p].0 {
            lemma_increment_entry(v, p);
        }
    }
    assert forall|k: int| g.dom().contains(k) implies g[k] == w[k] by {
        let j = choose|j: int| 0 <= j < v.len() && v[j].0 == k;
        lemma_increment_entry(v, j);
        lemma_increment_entry(u, j);
        if j != p {
            assert(u[j].0 != u[p].0) by {
                if j < p {
                    assert(u[j].0 < u[p].0);
                } else {
                    assert(u[p].0 < u[j].0);
                }
            }
        }
    }
    assert(g =~= w);
}

/// From the epoch of the entry before index `n` on, each sum of increments is
/// the running total of that entry or of a later one.
proof fn lemma_sum_among_totals(s: Seq<(u64, i128)>, e: int, n: int)
    requires
        increasing(s),
        0 <= n <= s.len(),
        forall|j: int| 0 <= j < n ==> s[j].0 <= e,
    ensures
        sum_upto(increments_of(s), e) == total_before(s, n) || exists|j: int|
            n <= j < s.len() && sum_upto(increments_of(s), e) == (#[trigger] s[j]).1,
    decreases s.len() - n,
{
    if n < s.len() && s[n].0 <= e {
        assert forall|j: int| 0 <= j < n + 1 implies s[j].0 <= e by {}
        lemma_sum_among_totals(s, e, n + 1);
        if sum_upto(increments_of(s), e) == total_before(s, n + 1) {
            assert(sum_upto(increments_of(s), e) == s[n].1);
        }
    } else {
        assert forall|j: int| n <= j < s.len() implies s[j].0 > e by {
            if j > n {
                assert(s[n].0 < s[j].0);
            }
        }
        lemma_sum_is_running_total(s, e, n);
    }
}

/// The running total of an entry is the sum of the increments up to it.
proof fn lemma_entry_total(u: Seq<(u64, i128)>, j: int)
    requires
        increasing(u),
        0 <= j < u.len(),
    ensures
        u[j].1 == sum_upto(increments_of(u), u[j].0 as int),
{
    assert forall|a: int| 0 <= a < j + 1 implies u[a].0 <= u[j].0 by {
        if a < j {
            assert(u[a].0 < u[j].0);
        }
    }
    lemma_sum_is_running_total(u, u[j].0 as int, j + 1);
}

proof fn lemma_raised_totals_fit(
    h: Map<int, int>,
    cutoff: int,
    target: int,
    delta: int,
    u: Seq<(u64, i128)>,
    p: int,
)
    requires
        from_zero(h),
        0 <= cutoff <= target,
        increasing(u),
        increments_of(u) == added(folded(h, cutoff), target, 0),
        0 <= p <= u.len(),
        forall|j: int| p <= j < u.len() ==> u[j].0 >= target,
        forall|e: int| e >= target ==> i128::MIN <= #[trigger] sum_upto(h, e) + delta <= i128::MAX,
    ensures
        forall|j: int| p <= j < u.len() ==> i128::MIN <= (#[trigger] u[j]).1 + delta <= i128::MAX,
{
    assert forall|j: int| p <= j < u.len() implies i128::MIN <= (#[trigger] u[j]).1 + delta
        <= i128::MAX by {
        let e = u[j].0 as int;
        lemma_entry_total(u, j);
        lemma_added_sum(folded(h, cutoff), target, 0, e);
        lemma_folded_total_at(h, cutoff, e);
        assert(u[j].1 == sum_upto(h, e));
    }
}

/// Whether the sum of `x` and `d` fits in an `i128`.
fn sum_fits(x: i128, d: i128) -> (r: bool)
    ensures
        r == (i128::MIN <= x + d <= i128::MAX),
{
    if d >= 0 {
        x <= i128::MAX - d
    } else {
        x >= i128::MIN - d
    }
}

/// Makes sure that there is an entry at `target`, with no increment of its own
/// if it is new. The result is its index.
fn ensure_entry(totals: &mut Vec<(u64, i128)>, target: u64) -> (p: usize)
    requires
        increasing(old(totals)@),
    ensures
        increasing(final(totals)@),
        p < final(totals)@.len(),
        final(totals)@[p as int].0 == target,
        forall|j: int| p <= j < final(totals)@.len() ==> final(totals)@[j].0 >= target,
        increments_of(final(totals)@) == added(increments_of(old(totals)@), target as int, 0),
{
    let ghost t = totals@;
    let mut p: usize = totals.len();
    while p > 0 && totals[p - 1].0 >= target
        invariant
            p <= totals.len(),
            totals@ == t,
            forall|j: int| p <= j < t.len() ==> t[j].0 >= target,
        decreases p,
    {
        p = p - 1;
    }
    if p < totals.len() && totals[p].0 == target {
        proof {
            lemma_increment_entry(t, p as int);
            assert(increments_of(t) =~= added(increments_of(t), target as int, 0));
        }
    } else {
        let before: i128 = if p == 0 {
            0
        } else {
            totals[p - 1].1
        };
        totals.insert(p, (target, before));
        proof {
            assert forall|j: int| p <= j < t.len() implies t[j].0 > target by {
                if j > p {
                    assert(t[p as int].0 < t[j].0);
                }
            }
            lemma_insert_zero(t, p as int, target, totals@);
        }
    }
    p
}

/// Raises the running totals from index `p` on by `delta`.
fn raise_from(totals: &mut Vec<(u64, i128)>, p: usize, delta: i128)
    requires
        increasing(old(totals)@),
        p < old(totals)@.len(),
        forall|j: int|
            p <= j < old(totals)@.len() ==> i128::MIN <= (#[trigger] old(totals)@[j]).1 + delta
                <= i128::MAX,
    ensures
        increasing(final(totals)@),
        final(totals)@.len() == old(totals)@.len(),
        increments_of(final(totals)@) == added(
            increments_of(old(totals)@),
            old(totals)@[p as int].0 as int,
            delta as int,
        ),
{
    let ghost u = totals@;
    let mut j: usize = p;
    while j < totals.len()
        invariant
            p <= j <= u.len(),
            totals@.len() == u.len(),
            forall|a: int| 0 <= a < p ==> totals@[a] == u[a],
            forall|a: int|
                p <= a < j ==> totals@[a].0 == u[a].0 && totals@[a].1 == u[a].1 + delta,
            forall|a: int| j <= a < u.len() ==> totals@[a] == u[a],
            forall|a: int|
                p <= a < u.len() ==> i128::MIN <= (#[trigger] u[a]).1 + delta <= i128::MAX,
        decreases u.len() - j,
    {
        let entry = totals[j];
        assert(entry == u[j as int]);
        totals.set(j, (entry.0, entry.1 + delta));
        j = j + 1;
    }
    proof {
        lemma_raise_entries(u, p as int, delta as int, totals@);
    }
}

/// The history of a field that changes by increments, such as the total of
/// the tokens bonded to a validator.
#[derive(Debug, PartialEq, Eq)]
pub struct EpochedDelta {
    totals: Vec<(u64, i128)>,
}

impl View for EpochedDelta {
    type V = Map<int, int>;

    closed spec fn view(&self) -> Map<int, int> {
        increments_of(self.totals@)
    }
}

impl EpochedDelta {
    /// The entries are in the order of their epochs, one for each epoch, and
    /// there is at least one.
    pub closed spec fn wf(&self) -> bool {
        increasing(self.totals@) && self.totals@.len() > 0
    }

    /// Every entry is at epoch zero or later.
    pub proof fn lemma_from_zero(&self)
        ensures
            from_zero(self@),
    {
        assert forall|k: int| self@.dom().contains(k) implies k >= 0 by {
            let j = choose|j: int| 0 <= j < self.totals@.len() && self.totals@[j].0 == k;
        }
    }

    /// A history with the one increment `delta`, at `epoch`.
    pub fn init_at_genesis(delta: TokenChange, epoch: Epoch) -> (r: Self)
        ensures
            r.wf(),
            r@ == Map::<int, int>::empty().insert(epoch.0 as int, delta as int),
    {
        let mut totals: Vec<(u64, i128)> = Vec::new();
        totals.push((epoch.0, delta));
        proof {
                    lemma_increment_entry(totals@, 0);
            assert(increments_of(totals@) =~= Map::<int, int>::empty().insert(
                epoch.0 as int,
                delta as int,
            ));
        }
        EpochedDelta { totals }
    }

    /// A history with the one increment `delta`, `pipeline_length` epochs
    /// after `epoch`.
    pub fn init(delta: TokenChange, epoch: Epoch, params: &PosParams) -> (r: Self)
        ensures
            r.wf(),
            r@ == Map::<int, int>::empty().insert(
                epoch.plus(params.pipeline_length),
                delta as int,
            ),
    {
        let window = EpochWindow::new(epoch, params);
        Self::init_at_genesis(delta, window.horizon_epoch(DynEpochOffset::PipelineLen))
    }

    /// The total in effect at `epoch`: the sum of the increments up to it.
    /// `None` says that `epoch` precedes every retained entry.
    pub fn get(&self, epoch: Epoch) -> (r: Option<TokenChange>)
        requires
            self.wf(),
        ensures
            match r {
                Some(t) => total_at(self@, epoch.0 as int) == Some(t as int),
                None => total_at(self@, epoch.0 as int) is None,
            },
    {
        match locate(&self.totals, epoch.0) {
            None => {
                proof {
                    lemma_sum_is_running_total(self.totals@, epoch.0 as int, 0);
                }
                None
            },
            Some(i) => {
                proof {
                                    assert forall|j: int| 0 <= j < i + 1 implies self.totals@[j].0 <= epoch.0 by {
                        if j < i {
                            assert(self.totals@[j].0 < self.totals@[i as int].0);
                        }
                    }
                    lemma_sum_is_running_total(self.totals@, epoch.0 as int, i + 1);
                }
                Some(self.totals[i].1)
            },
        }
    }

    /// A history with the same increments.
    pub fn duplicate(&self) -> (r: Self)
        ensures
            r@ == self@,
            r.wf() == self.wf(),
    {
        let mut totals: Vec<(u64, i128)> = Vec::new();
        let mut i: usize = 0;
        while i < self.totals.len()
            invariant
                i <= self.totals.len(),
                totals@ == self.totals@.subrange(0, i as int),
            decreases self.totals.len() - i,
        {
            totals.push(self.totals[i]);
            assert(totals@ =~= self.totals@.subrange(0, i + 1));
            i = i + 1;
        }
        assert(totals@ =~= self.totals@);
        EpochedDelta { totals }
    }

    /// Whether `set` can take the increment `delta` at `epoch`: whether every
    /// total that it raises fits in an `i128`.
    pub fn fits(&self, delta: TokenChange, epoch: Epoch, params: &PosParams) -> (r: bool)
        requires
            self.wf(),
        ensures
            r == (forall|e: int|
                e >= epoch.plus(params.pipeline_length) ==> i128::MIN <= #[trigger] sum_upto(
                    self@,
                    e,
                ) + delta <= i128::MAX),
    {
        let window = EpochWindow::new(epoch, params);
        let target = window.horizon_epoch(DynEpochOffset::PipelineLen);
        let ghost s = self.totals@;
        let ghost h = increments_of(s);
        let mut i: usize = self.totals.len();
        while i > 0 && self.totals[i - 1].0 >= target.0
            invariant
                i <= self.totals.len(),
                s == self.totals@,
                h == self@,
                target.0 == epoch.plus(params.pipeline_length),
                increasing(s),
                forall|j: int| i <= j < s.len() ==> s[j].0 >= target.0,
                forall|j: int|
                    i <= j < s.len() ==> i128::MIN <= (#[trigger] s[j]).1 + delta <= i128::MAX,
            decreases i,
        {
            if !sum_fits(self.totals[i - 1].1, delta) {
                proof {
                    lemma_entry_total(s, i - 1);
                    let e = s[i - 1].0 as int;
                    assert(e >= target.0);
                    assert(s[i - 1].1 == sum_upto(h, e));
                    assert(!(i128::MIN <= sum_upto(self@, e) + delta <= i128::MAX));
                }
                return false;
            }
            i = i - 1;
        }
        proof {
            assert forall|j: int| 0 <= j < i implies s[j].0 < target.0 by {
                if j < i - 1 {
                    assert(s[j].0 < s[i - 1].0);
                }
            }
        }
        let at_target: bool = i < self.totals.len() && self.totals[i].0 == target.0;
        if !at_target {
            let before: i128 = if i == 0 {
                0
            } else {
                self.totals[i - 1].1
            };
            if !sum_fits(before, delta) {
                proof {
                    assert forall|j: int| i <= j < s.len() implies s[j].0 > target.0 by {
                        if j > i {
                            assert(s[i as int].0 < s[j].0);
                        }
                    }
                    lemma_sum_is_running_total(s, target.0 as int, i as int);
                    assert(h == self@);
                    assert(!(i128::MIN <= sum_upto(self@, target.0 as int) + delta <= i128::MAX));
                }
                return false;
            }
        }
        proof {
            assert(h == self@);
            assert forall|e: int| e >= target.0 implies i128::MIN <= #[trigger] sum_upto(h, e)
                + delta <= i128::MAX by {
                if at_target {
                    assert forall|j: int| 0 <= j < i + 1 implies s[j].0 <= e by {}
                    lemma_sum_among_totals(s, e, i + 1);
                } else {
                    lemma_sum_among_totals(s, e, i as int);
                }
            }
        }
        true
    }

    /// Adds the increment `delta` at the epoch `pipeline_length` after
    /// `epoch`, to what was set for that epoch before. Increments that lie
    /// more than `unbonding_length` before `epoch` are folded into one at the
    /// start of that window. Every total that rises must fit in an `i128`.
    pub fn set(&mut self, delta: TokenChange, epoch: Epoch, params: &PosParams)
        requires
            old(self).wf(),
            forall|e: int|
                e >= epoch.plus(params.pipeline_length) ==> i128::MIN <= #[trigger] sum_upto(
                    old(self)@,
                    e,
                ) + delta <= i128::MAX,
        ensures
            final(self).wf(),
            final(self)@ == after_add(old(self)@, delta as int, epoch, *params),
    {
        let window = EpochWindow::new(epoch, params);
        let cutoff = window.start_epoch();
        let target = window.horizon_epoch(DynEpochOffset::PipelineLen);
        let ghost s = self.totals@;
        let ghost h = increments_of(s);
        assert(h == old(self)@);
        assert(forall|e: int|
            e >= target.0 ==> i128::MIN <= #[trigger] sum_upto(h, e) + delta <= i128::MAX);
        let located = prune_entries(&mut self.totals, cutoff.0);
        let ghost t = self.totals@;
        proof {
            match located {
                Some(i) => {
                    lemma_fold_entries(s, cutoff.0, i as int, t);
                },
                None => {
                    lemma_sum_is_running_total(s, cutoff.0 as int, 0);
                },
            }
        }
        let p = ensure_entry(&mut self.totals, target.0);
        proof {
            self.lemma_from_zero();
            lemma_raised_totals_fit(
                h,
                cutoff.0 as int,
                target.0 as int,
                delta as int,
                self.totals@,
                p as int,
            );
        }
        raise_from(&mut self.totals, p, delta);
        proof {
            assert(increments_of(self.totals@) =~= added(
                folded(h, cutoff.0 as int),
                target.0 as int,
                delta as int,
            ));
        }
    }
}

} // verus!
