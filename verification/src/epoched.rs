//! Values versioned by epoch.
//!
//! A history maps the epochs at which a field changed to the value it took.
//! The value in effect at an epoch is the one of the newest entry that is not
//! after it. Writes land a window ahead of the epoch at which they are made,
//! and drop what lies behind the look-back window of that epoch.

use crate::types::{DynEpochOffset, Epoch, EpochWindow, PosParams};
use vstd::prelude::*;

verus! {

/// `k` is the newest epoch of `h` that is not after `e`.
pub open spec fn is_latest_at<V>(h: Map<int, V>, e: int, k: int) -> bool {
    &&& h.dom().contains(k)
    &&& k <= e
    &&& forall|j: int| h.dom().contains(j) && j <= e ==> j <= k
}

/// Every entry of `h` is after `e`: a query at `e` has fallen out of the
/// window that `h` retains.
pub open spec fn expired_at<V>(h: Map<int, V>, e: int) -> bool {
    forall|k: int| h.dom().contains(k) ==> e < k
}

/// The value in effect at `e`: that of the newest entry at or before `e`. It is `None`
/// where `e` precedes every entry.
pub open spec fn value_at<V>(h: Map<int, V>, e: int) -> Option<V> {
    if exists|k: int| is_latest_at(h, e, k) {
        Some(h[choose|k: int| is_latest_at(h, e, k)])
    } else {
        None
    }
}

/// `h` without what lies before `cutoff`. The value in effect at `cutoff`
/// stays, as an entry at `cutoff` itself; every entry after it stays as it is.
pub open spec fn pruned<V>(h: Map<int, V>, cutoff: int) -> Map<int, V> {
    match value_at(h, cutoff) {
        Some(v) => Map::new(
            |k: int| k == cutoff || (h.dom().contains(k) && k > cutoff),
            |k: int|
                if k == cutoff {
                    v
                } else {
                    h[k]
                },
        ),
        None => h,
    }
}

/// `h` after a write of `v` at `target`, made with `cutoff` as the start of the
/// look-back window.
pub open spec fn written<V>(h: Map<int, V>, cutoff: int, target: int, v: V) -> Map<int, V> {
    pruned(h, cutoff).insert(target, v)
}

/// `h` after `v` was set at `epoch`: the entry lands `pipeline_length` ahead,
/// and the window starts `unbonding_length` back.
pub open spec fn after_set<V>(h: Map<int, V>, v: V, epoch: Epoch, params: PosParams) -> Map<
    int,
    V,
> {
    let window = EpochWindow { epoch, params };
    written(h, window.start(), window.horizon(DynEpochOffset::PipelineLen), v)
}

/// The epoch that a write of `kind` made at `epoch` lands on.
pub open spec fn horizon(epoch: Epoch, kind: DynEpochOffset, params: PosParams) -> int {
    (EpochWindow { epoch, params }).horizon(kind)
}

/// The newest entry at or before an epoch is the value in effect there.
pub proof fn lemma_value_at_latest<V>(h: Map<int, V>, e: int, k: int)
    requires
        is_latest_at(h, e, k),
    ensures
        value_at(h, e) == Some(h[k]),
{
    let c = choose|k: int| is_latest_at(h, e, k);
    assert(c <= k && k <= c);
}

/// Where some entry is at or before an epoch, one of them is the newest.
pub proof fn lemma_latest_exists<V>(h: Map<int, V>, e: int, k: int)
    requires
        h.dom().contains(k),
        k <= e,
    ensures
        exists|j: int| is_latest_at(h, e, j),
    decreases e - k,
{
    if exists|j: int| h.dom().contains(j) && k < j <= e {
        let j = choose|j: int| h.dom().contains(j) && k < j <= e;
        lemma_latest_exists(h, e, j);
    } else {
        assert(is_latest_at(h, e, k));
    }
}

/// A query gives no value exactly where it precedes every entry.
pub proof fn lemma_value_at_none<V>(h: Map<int, V>, e: int)
    ensures
        value_at(h, e) is None <==> expired_at(h, e),
{
    if expired_at(h, e) {
        assert forall|k: int| !is_latest_at(h, e, k) by {}
    } else {
        let k = choose|k: int| h.dom().contains(k) && !(e < k);
        lemma_latest_exists(h, e, k);
    }
}

/// Pruning leaves every query from the cutoff on as it was, and expires every
/// query before the cutoff.
pub proof fn lemma_pruned_value_at<V>(h: Map<int, V>, cutoff: int, e: int)
    ensures
        e >= cutoff ==> value_at(pruned(h, cutoff), e) == value_at(h, e),
        e < cutoff ==> value_at(pruned(h, cutoff), e) is None,
{
    let p = pruned(h, cutoff);
    lemma_value_at_none(h, cutoff);
    if value_at(h, cutoff) is None {
        assert(p == h);
        if e < cutoff {
            lemma_value_at_none(h, e);
        }
    } else {
        let c = choose|k: int| is_latest_at(h, cutoff, k);
        lemma_value_at_latest(h, cutoff, c);
        assert(p[cutoff] == h[c]);
        if e < cutoff {
            lemma_value_at_none(p, e);
        } else {
            lemma_value_at_none(h, e);
            assert(h.dom().contains(c) && c <= e);
            let k = choose|k: int| is_latest_at(h, e, k);
            lemma_value_at_latest(h, e, k);
            if k <= cutoff {
                assert(k == c);
                assert(is_latest_at(p, e, cutoff));
                lemma_value_at_latest(p, e, cutoff);
            } else {
                assert(is_latest_at(p, e, k));
                lemma_value_at_latest(p, e, k);
            }
        }
    }
}

/// An inserted entry is in effect from its epoch up to the next entry after
/// it; every other query is as it was.
pub proof fn lemma_insert_value_at<V>(h: Map<int, V>, target: int, v: V, e: int)
    ensures
        e < target ==> value_at(h.insert(target, v), e) == value_at(h, e),
        e >= target && (forall|k: int| h.dom().contains(k) && k <= e ==> k <= target) ==> value_at(
            h.insert(target, v),
            e,
        ) == Some(v),
        e >= target && (exists|k: int| h.dom().contains(k) && target < k <= e) ==> value_at(
            h.insert(target, v),
            e,
        ) == value_at(h, e),
{
    let g = h.insert(target, v);
    lemma_value_at_none(h, e);
    lemma_value_at_none(g, e);
    if e < target {
        if value_at(h, e) is Some {
            let k = choose|k: int| is_latest_at(h, e, k);
            lemma_value_at_latest(h, e, k);
            assert(is_latest_at(g, e, k));
            lemma_value_at_latest(g, e, k);
        } else {
            assert(expired_at(g, e));
        }
    } else if forall|k: int| h.dom().contains(k) && k <= e ==> k <= target {
        assert(is_latest_at(g, e, target));
        lemma_value_at_latest(g, e, target);
    } else {
        let j = choose|k: int| h.dom().contains(k) && !(k <= e ==> k <= target);
        lemma_latest_exists(h, e, j);
        let k = choose|k: int| is_latest_at(h, e, k);
        lemma_value_at_latest(h, e, k);
        assert(j <= k);
        assert(is_latest_at(g, e, k));
        lemma_value_at_latest(g, e, k);
    }
}

/// A value set at `epoch` changes no query before the epoch it lands on,
/// but for the queries before the window of `epoch` that had a value: those
/// have expired.
pub proof fn lemma_set_keeps_earlier_queries<V>(
    h: Map<int, V>,
    v: V,
    epoch: Epoch,
    params: PosParams,
    e: int,
)
    requires
        e < epoch.plus(params.pipeline_length),
    ensures
        e >= epoch.minus(params.unbonding_length) || value_at(h, e) is None ==> value_at(
            after_set(h, v, epoch, params),
            e,
        ) == value_at(h, e),
        e < epoch.minus(params.unbonding_length) ==> value_at(after_set(h, v, epoch, params), e)
            is None,
{
    let cutoff = epoch.minus(params.unbonding_length);
    let target = epoch.plus(params.pipeline_length);
    lemma_pruned_value_at(h, cutoff, e);
    lemma_insert_value_at(pruned(h, cutoff), target, v, e);
}

/// After a write at `target` with the window starting at `cutoff`, every
/// query before `cutoff` has expired.
pub proof fn lemma_write_expires_before_window<V>(
    h: Map<int, V>,
    cutoff: int,
    target: int,
    v: V,
    e: int,
)
    requires
        e < cutoff <= target,
    ensures
        value_at(written(h, cutoff, target, v), e) is None,
{
    lemma_pruned_value_at(h, cutoff, e);
    lemma_insert_value_at(pruned(h, cutoff), target, v, e);
}

/// After a value was set at `epoch`, whatever was written before, every query
/// more than `unbonding_length` epochs before `epoch` has expired.
pub proof fn lemma_set_expires_before_window<V>(
    h: Map<int, V>,
    v: V,
    epoch: Epoch,
    params: PosParams,
    e: int,
)
    requires
        e < epoch.minus(params.unbonding_length),
    ensures
        value_at(after_set(h, v, epoch, params), e) is None,
{
    lemma_write_expires_before_window(
        h,
        epoch.minus(params.unbonding_length),
        epoch.plus(params.pipeline_length),
        v,
        e,
    );
}

/// `h` after each value of `writes` was set at its epoch, in the order of the
/// list.
pub open spec fn after_sets<V>(h: Map<int, V>, writes: Seq<(V, Epoch)>, params: PosParams) -> Map<
    int,
    V,
>
    decreases writes.len(),
{
    if writes.len() == 0 {
        h
    } else {
        after_set(
            after_sets(h, writes.drop_last(), params),
            writes.last().0,
            writes.last().1,
            params,
        )
    }
}

/// After any sequence of writes, every query more than `unbonding_length`
/// epochs before the epoch of the last write has expired.
pub proof fn lemma_sets_expire_before_window<V>(
    h: Map<int, V>,
    writes: Seq<(V, Epoch)>,
    params: PosParams,
    e: int,
)
    requires
        writes.len() > 0,
        e < writes.last().1.minus(params.unbonding_length),
    ensures
        value_at(after_sets(h, writes, params), e) is None,
{
    lemma_set_expires_before_window(
        after_sets(h, writes.drop_last(), params),
        writes.last().0,
        writes.last().1,
        params,
        e,
    );
}

/// A value set at `epoch` is in effect from the epoch it lands on, as long as
/// no later entry takes over.
pub proof fn lemma_set_takes_effect<V>(h: Map<int, V>, v: V, epoch: Epoch, params: PosParams, e: int)
    requires
        e >= epoch.plus(params.pipeline_length),
        forall|k: int| h.dom().contains(k) && k <= e ==> k <= epoch.plus(params.pipeline_length),
    ensures
        value_at(after_set(h, v, epoch, params), e) == Some(v),
{
    let cutoff = epoch.minus(params.unbonding_length);
    let target = epoch.plus(params.pipeline_length);
    lemma_value_at_none(h, cutoff);
    lemma_insert_value_at(pruned(h, cutoff), target, v, e);
}

/// Of two values set one after the other, at `first` and then at a later epoch
/// `second`, the first is in effect from where it lands up to where the second
/// lands, as far as the window of `second` reaches back, provided that the
/// history held no entry after the epoch at which the first lands.
pub proof fn lemma_later_set_keeps_earlier_value<V>(
    h: Map<int, V>,
    v1: V,
    first: Epoch,
    v2: V,
    second: Epoch,
    params: PosParams,
    e: int,
)
    requires
        first.0 < second.0,
        forall|k: int| h.dom().contains(k) ==> k <= first.plus(params.pipeline_length),
        first.plus(params.pipeline_length) <= e < second.plus(params.pipeline_length),
        second.minus(params.unbonding_length) <= e,
    ensures
        value_at(after_set(after_set(h, v1, first, params), v2, second, params), e) == Some(v1),
{
    let h1 = after_set(h, v1, first, params);
    lemma_set_keeps_earlier_queries(h1, v2, second, params, e);
    lemma_set_takes_effect(h, v1, first, params, e);
}

/// Every value of a history after a write is the written one or was in the
/// history before.
pub proof fn lemma_written_keeps<V>(h: Map<int, V>, cutoff: int, target: int, v: V)
    ensures
        forall|k: int| #[trigger]
            written(h, cutoff, target, v).dom().contains(k) ==> written(h, cutoff, target, v)[k]
                == v || exists|j: int| h.dom().contains(j) && h[j] == written(
                h,
                cutoff,
                target,
                v,
            )[k],
{
    let g = written(h, cutoff, target, v);
    assert forall|k: int| #[trigger] g.dom().contains(k) implies g[k] == v || exists|j: int|
        h.dom().contains(j) && h[j] == g[k] by {
        if k != target {
            if value_at(h, cutoff) is Some && k == cutoff {
                let c = choose|c: int| is_latest_at(h, cutoff, c);
                lemma_value_at_latest(h, cutoff, c);
                assert(h.dom().contains(c) && h[c] == g[k]);
            } else {
                assert(h.dom().contains(k) && h[k] == g[k]);
            }
        }
    }
}

/// The history that a sequence of entries stands for.
pub closed spec fn history_of<T: View>(s: Seq<(u64, T)>) -> Map<int, T::V> {
    Map::new(
        |k: int| exists|i: int| 0 <= i < s.len() && s[i].0 == k,
        |k: int| s[choose|i: int| 0 <= i < s.len() && s[i].0 == k].1@,
    )
}

/// The epochs of `s` grow from each entry to the next.
pub open spec fn increasing<T>(s: Seq<(u64, T)>) -> bool {
    forall|i: int, j: int| 0 <= i < j < s.len() ==> s[i].0 < s[j].0
}

proof fn lemma_history_entry<T: View>(s: Seq<(u64, T)>, i: int)
    requires
        increasing(s),
        0 <= i < s.len(),
    ensures
        history_of(s).dom().contains(s[i].0 as int),
        history_of(s)[s[i].0 as int] == s[i].1@,
{
    let k = s[i].0 as int;
    let c = choose|j: int| 0 <= j < s.len() && s[j].0 == k;
    assert(c == i) by {
        if c < i {
            assert(s[c].0 < s[i].0);
        } else if i < c {
            assert(s[i].0 < s[c].0);
        }
    }
}

proof fn lemma_history_first_covers<T: View>(s: Seq<(u64, T)>, e: int, i: int)
    requires
        increasing(s),
        0 <= i < s.len(),
        s[i].0 <= e,
        forall|j: int| i < j < s.len() ==> s[j].0 > e,
    ensures
        is_latest_at(history_of(s), e, s[i].0 as int),
        value_at(history_of(s), e) == Some(s[i].1@),
{
    let h = history_of(s);
    lemma_history_entry(s, i);
    assert forall|k: int| h.dom().contains(k) && k <= e implies k <= s[i].0 by {
        let j = choose|j: int| 0 <= j < s.len() && s[j].0 == k;
        if j > i {
            assert(s[j].0 > e);
        } else if j < i {
            assert(s[j].0 < s[i].0);
        }
    }
    lemma_value_at_latest(h, e, s[i].0 as int);
}

proof fn lemma_history_none_covers<T: View>(s: Seq<(u64, T)>, e: int)
    requires
        forall|j: int| 0 <= j < s.len() ==> s[j].0 > e,
    ensures
        expired_at(history_of(s), e),
        value_at(history_of(s), e) is None,
{
    let h = history_of(s);
    assert forall|k: int| h.dom().contains(k) implies e < k by {
        let j = choose|j: int| 0 <= j < s.len() && s[j].0 == k;
        assert(s[j].0 > e);
    }
    lemma_value_at_none(h, e);
}

/// The index of the newest entry at or before `e`, if there is one.
pub(crate) fn locate<T>(entries: &Vec<(u64, T)>, e: u64) -> (r: Option<usize>)
    requires
        increasing(entries@),
    ensures
        match r {
            Some(i) => i < entries.len() && entries[i as int].0 <= e && forall|j: int|
                i < j < entries.len() ==> entries[j].0 > e,
            None => forall|j: int| 0 <= j < entries.len() ==> entries[j].0 > e,
        },
{
    let mut i: usize = entries.len();
    while i > 0 && entries[i - 1].0 > e
        invariant
            i <= entries.len(),
            forall|j: int| i <= j < entries.len() ==> entries[j].0 > e,
        decreases i,
    {
        i = i - 1;
    }
    if i == 0 {
        None
    } else {
        Some(i - 1)
    }
}

/// Drops what lies before `cutoff`, and moves the entry in effect there to
/// `cutoff` itself. The result is the index at which that entry stood.
pub(crate) fn prune_entries<T: View>(entries: &mut Vec<(u64, T)>, cutoff: u64) -> (r: Option<usize>)
    requires
        increasing(old(entries)@),
        old(entries)@.len() > 0,
    ensures
        increasing(final(entries)@),
        final(entries)@.len() > 0,
        history_of(final(entries)@) == pruned(history_of(old(entries)@), cutoff as int),
        match r {
            Some(i) => {
                &&& i < old(entries)@.len()
                &&& old(entries)@[i as int].0 <= cutoff
                &&& forall|j: int| i < j < old(entries)@.len() ==> old(entries)@[j].0 > cutoff
                &&& final(entries)@ == seq![(cutoff, old(entries)@[i as int].1)] + old(
                    entries,
                )@.subrange(i + 1, old(entries)@.len() as int)
            },
            None => {
                &&& forall|j: int| 0 <= j < old(entries)@.len() ==> old(entries)@[j].0 > cutoff
                &&& final(entries)@ == old(entries)@
            },
        },
{
    let ghost s = entries@;
    let ghost h = history_of(s);
    match locate(entries, cutoff) {
        None => {
            proof {
                lemma_history_none_covers(s, cutoff as int);
            }
            None
        },
        Some(i) => {
            proof {
                lemma_history_first_covers(s, cutoff as int, i as int);
            }
            let mut rest = entries.split_off(i);
            let first = rest.remove(0);
            rest.insert(0, (cutoff, first.1));
            *entries = rest;
            proof {
                let t = entries@;
                assert(t.len() == s.len() - i);
                assert(t[0].0 == cutoff && t[0].1 == s[i as int].1);
                assert forall|j: int| 1 <= j < t.len() implies t[j] == s[i + j] by {}
                assert(increasing(t)) by {
                    assert forall|a: int, b: int| 0 <= a < b < t.len() implies t[a].0 < t[b].0 by {
                        if a == 0 {
                            assert(s[i + b].0 > cutoff);
                        } else {
                            assert(s[i + a].0 < s[i + b].0);
                        }
                    }
                }
                let g = history_of(t);
                let p = pruned(h, cutoff as int);
                assert forall|k: int| g.dom().contains(k) <==> p.dom().contains(k) by {
                    if g.dom().contains(k) {
                        let j = choose|j: int| 0 <= j < t.len() && t[j].0 == k;
                        if j > 0 {
                            lemma_history_entry(s, i + j);
                            assert(s[i + j].0 > cutoff);
                        }
                    }
                    if p.dom().contains(k) {
                        if k == cutoff {
                            lemma_history_entry(t, 0);
                        } else {
                            let j = choose|j: int| 0 <= j < s.len() && s[j].0 == k;
                            if j <= i {
                                assert(s[j].0 <= s[i as int].0);
                            }
                            assert(t[j - i] == s[j]);
                            lemma_history_entry(t, j - i);
                        }
                    }
                }
                assert forall|k: int| g.dom().contains(k) implies g[k] == p[k] by {
                    let j = choose|j: int| 0 <= j < t.len() && t[j].0 == k;
                    lemma_history_entry(t, j);
                    if j > 0 {
                        lemma_history_entry(s, i + j);
                        assert(s[i + j].0 > cutoff);
                    }
                }
                assert(g =~= p);
                assert(t =~= seq![(cutoff, s[i as int].1)] + s.subrange(i + 1, s.len() as int));
            }
            Some(i)
        },
    }
}

/// Writes `value` at `target`, over the entry that is there if there is one.
fn put_entry<T: View>(entries: &mut Vec<(u64, T)>, target: u64, value: T)
    requires
        increasing(old(entries)@),
    ensures
        increasing(final(entries)@),
        final(entries)@.len() > 0,
        history_of(final(entries)@) == history_of(old(entries)@).insert(target as int, value@),
{
    let ghost s = entries@;
    let ghost h = history_of(s);
    let ghost v = value@;
    let mut p: usize = entries.len();
    while p > 0 && entries[p - 1].0 >= target
        invariant
            p <= entries.len(),
            entries@ == s,
            forall|j: int| p <= j < entries.len() ==> entries[j].0 >= target,
        decreases p,
    {
        p = p - 1;
    }
    let replace: bool = p < entries.len() && entries[p].0 == target;
    if replace {
        entries.set(p, (target, value));
    } else {
        entries.insert(p, (target, value));
    }
    proof {
        let t = entries@;
        let g = history_of(t);
        let shift: int = if replace {
            0
        } else {
            1
        };
        assert(t[p as int].0 == target && t[p as int].1@ == v);
        assert forall|j: int| 0 <= j < p implies t[j] == s[j] && s[j].0 < target by {}
        assert forall|j: int| p < j < t.len() implies t[j] == s[j - shift] && s[j - shift].0
            > target by {
            if replace {
                assert(s[p as int].0 < s[j].0);
            } else {
                assert(s[j - 1].0 >= target);
            }
        }
        assert(increasing(t)) by {
            assert forall|a: int, b: int| 0 <= a < b < t.len() implies t[a].0 < t[b].0 by {
                if a < p && b > p {
                    assert(s[a].0 < target && s[b - shift].0 > target);
                } else if a < p && b < p {
                    assert(s[a].0 < s[b].0);
                } else if a > p {
                    assert(s[a - shift].0 < s[b - shift].0);
                }
            }
        }
        let w = h.insert(target as int, v);
        assert forall|k: int| g.dom().contains(k) <==> w.dom().contains(k) by {
            if g.dom().contains(k) {
                let j = choose|j: int| 0 <= j < t.len() && t[j].0 == k;
                if j < p {
                    lemma_history_entry(s, j);
                } else if j > p {
                    lemma_history_entry(s, j - shift);
                }
            }
            if w.dom().contains(k) {
                if k == target {
                    lemma_history_entry(t, p as int);
                } else {
                    let j = choose|j: int| 0 <= j < s.len() && s[j].0 == k;
                    if s[j].0 < target {
                        assert(j < p) by {
                            if j >= p {
                                assert(s[j].0 >= target);
                            }
                        }
                        lemma_history_entry(t, j);
                    } else {
                        assert(j >= p);
                        assert(t[j + shift] == s[j]);
                        lemma_history_entry(t, j + shift);
                    }
                }
            }
        }
        assert forall|k: int| g.dom().contains(k) implies g[k] == w[k] by {
            let j = choose|j: int| 0 <= j < t.len() && t[j].0 == k;
            lemma_history_entry(t, j);
            if j < p {
                lemma_history_entry(s, j);
            } else if j > p {
                lemma_history_entry(s, j - shift);
            }
        }
        assert(g =~= w);
    }
}

/// The history of a field whose value is replaced as a whole, such as a key,
/// a state or a voting power.
#[derive(Debug, PartialEq, Eq)]
pub struct EpochedValue<T> {
    entries: Vec<(u64, T)>,
}

impl<T: View> View for EpochedValue<T> {
    type V = Map<int, T::V>;

    closed spec fn view(&self) -> Map<int, T::V> {
        history_of(self.entries@)
    }
}

impl<T: View> EpochedValue<T> {
    /// The entries are in the order of their epochs, one for each epoch, and
    /// there is at least one.
    pub closed spec fn wf(&self) -> bool {
        increasing(self.entries@) && self.entries@.len() > 0
    }

    /// A history with the one value `value`, in effect from `epoch` on.
    pub fn init_at_genesis(value: T, epoch: Epoch) -> (r: Self)
        ensures
            r.wf(),
            r@ == Map::<int, T::V>::empty().insert(epoch.0 as int, value@),
    {
        let mut entries: Vec<(u64, T)> = Vec::new();
        put_entry(&mut entries, epoch.0, value);
        proof {
            assert(history_of(Seq::<(u64, T)>::empty()) =~= Map::<int, T::V>::empty());
        }
        EpochedValue { entries }
    }

    /// A history with the one value `value`, in effect from `pipeline_length`
    /// epochs after `epoch` on.
    pub fn init(value: T, epoch: Epoch, params: &PosParams) -> (r: Self)
        ensures
            r.wf(),
            r@ == Map::<int, T::V>::empty().insert(epoch.plus(params.pipeline_length), value@),
    {
        let window = EpochWindow::new(epoch, params);
        Self::init_at_genesis(value, window.horizon_epoch(DynEpochOffset::PipelineLen))
    }

    /// The value in effect at `epoch`. `None` says that `epoch` precedes every
    /// retained entry: what was in effect then is no longer kept.
    pub fn get(&self, epoch: Epoch) -> (r: Option<&T>)
        requires
            self.wf(),
        ensures
            match r {
                Some(v) => value_at(self@, epoch.0 as int) == Some(v@),
                None => value_at(self@, epoch.0 as int) is None,
            },
            r is None <==> expired_at(self@, epoch.0 as int),
    {
        proof {
            lemma_value_at_none(self@, epoch.0 as int);
        }
        match locate(&self.entries, epoch.0) {
            None => {
                proof {
                    lemma_history_none_covers(self.entries@, epoch.0 as int);
                }
                None
            },
            Some(i) => {
                proof {
                    lemma_history_first_covers(self.entries@, epoch.0 as int, i as int);
                }
                Some(&self.entries[i].1)
            },
        }
    }

    /// Sets the value that takes effect `pipeline_length` epochs after
    /// `epoch`, over one set for that epoch before. Entries from other epochs
    /// inside the look-back window of `epoch` stay. What lies before the
    /// window is dropped, but for the value in effect at its start, which is
    /// kept as an entry there.
    pub fn set(&mut self, value: T, epoch: Epoch, params: &PosParams)
        requires
            old(self).wf(),
        ensures
            final(self).wf(),
            final(self)@ == after_set(old(self)@, value@, epoch, *params),
    {
        let window = EpochWindow::new(epoch, params);
        let cutoff = window.start_epoch();
        let target = window.horizon_epoch(DynEpochOffset::PipelineLen);
        let _ = prune_entries(&mut self.entries, cutoff.0);
        put_entry(&mut self.entries, target.0, value);
    }

    /// Replaces the value in effect at the horizon of `epoch` by what
    /// `transform` makes of it, as an entry at that horizon, and prunes as
    /// `set` does. Where no value is in effect at the horizon, nothing changes
    /// and the result is `false`.
    pub fn update_from_offset<F: FnOnce(&T) -> T>(
        &mut self,
        transform: F,
        epoch: Epoch,
        offset_kind: DynEpochOffset,
        params: &PosParams,
    ) -> (r: bool)
        requires
            old(self).wf(),
            forall|x: T|
                value_at(old(self)@, horizon(epoch, offset_kind, *params)) == Some(x@)
                    ==> call_requires(transform, (&x,)),
        ensures
            final(self).wf(),
            r == value_at(old(self)@, horizon(epoch, offset_kind, *params)).is_some(),
            !r ==> final(self)@ == old(self)@,
            r ==> exists|x: T, y: T|
                {
                    &&& value_at(old(self)@, horizon(epoch, offset_kind, *params)) == Some(x@)
                    &&& #[trigger] call_ensures(transform, (&x,), y)
                    &&& final(self)@ == written(
                        old(self)@,
                        epoch.minus(params.unbonding_length),
                        horizon(epoch, offset_kind, *params),
                        y@,
                    )
                },
    {
        let window = EpochWindow::new(epoch, params);
        let cutoff = window.start_epoch();
        let target = window.horizon_epoch(offset_kind);
        match locate(&self.entries, target.0) {
            None => {
                proof {
                    lemma_history_none_covers(self.entries@, target.0 as int);
                }
                false
            },
            Some(i) => {
                proof {
                    lemma_history_first_covers(self.entries@, target.0 as int, i as int);
                }
                let ghost x = self.entries@[i as int].1;
                let next = transform(&self.entries[i].1);
                let ghost y = next;
                let _ = prune_entries(&mut self.entries, cutoff.0);
                put_entry(&mut self.entries, target.0, next);
                assert(call_ensures(transform, (&x,), y));
                true
            },
        }
    }

    /// A history with the same entries, each value copied by `copy`.
    pub fn duplicate_with<F: Fn(&T) -> T>(&self, copy: F) -> (r: Self)
        requires
            self.wf(),
            forall|x: T| call_requires(copy, (&x,)),
            forall|x: T, y: T| call_ensures(copy, (&x,), y) ==> y@ == x@,
        ensures
            r.wf(),
            r@ == self@,
    {
        let mut entries: Vec<(u64, T)> = Vec::new();
        let mut i: usize = 0;
        while i < self.entries.len()
            invariant
                i <= self.entries.len(),
                entries@.len() == i,
                forall|x: T| call_requires(copy, (&x,)),
                forall|x: T, y: T| call_ensures(copy, (&x,), y) ==> y@ == x@,
                forall|j: int|
                    0 <= j < i ==> entries@[j].0 == self.entries@[j].0 && entries@[j].1@
                        == self.entries@[j].1@,
            decreases self.entries.len() - i,
        {
            let value = copy(&self.entries[i].1);
            entries.push((self.entries[i].0, value));
            i = i + 1;
        }
        proof {
            lemma_history_same(self.entries@, entries@);
        }
        EpochedValue { entries }
    }
}

impl<T: View + Copy> EpochedValue<T> {
    /// A history with the same entries.
    pub fn duplicate(&self) -> (r: Self)
        requires
            self.wf(),
        ensures
            r.wf(),
            r@ == self@,
    {
        let copy = |x: &T| -> (y: T)
            ensures
                y == *x,
            {
                let y = *x;
                y
            };
        self.duplicate_with(copy)
    }
}

/// Two sequences with the same epochs and, entry by entry, values that look
/// the same stand for the same history.
proof fn lemma_history_same<T: View>(s: Seq<(u64, T)>, t: Seq<(u64, T)>)
    requires
        increasing(s),
        s.len() == t.len(),
        forall|j: int| 0 <= j < s.len() ==> s[j].0 == t[j].0 && s[j].1@ == t[j].1@,
    ensures
        increasing(t),
        history_of(s) == history_of(t),
{
    let g = history_of(s);
    let h = history_of(t);
    assert forall|a: int, b: int| 0 <= a < b < t.len() implies t[a].0 < t[b].0 by {
        assert(s[a].0 < s[b].0);
    }
    assert forall|k: int| g.dom().contains(k) <==> h.dom().contains(k) by {
        if g.dom().contains(k) {
            let j = choose|j: int| 0 <= j < s.len() && s[j].0 == k;
            assert(t[j].0 == k);
        }
        if h.dom().contains(k) {
            let j = choose|j: int| 0 <= j < t.len() && t[j].0 == k;
            assert(s[j].0 == k);
        }
    }
    assert forall|k: int| g.dom().contains(k) implies g[k] == h[k] by {
        let a = choose|j: int| 0 <= j < s.len() && s[j].0 == k;
        lemma_history_entry(s, a);
        lemma_history_entry(t, a);
    }
    assert(g =~= h);
}

} // verus!
