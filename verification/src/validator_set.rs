//! The validators, ranked by voting power and parted into those that take
//! part in consensus and the rest.

use crate::types::{Address, WeightedValidator};
use vstd::prelude::*;

verus! {

/// Each member precedes the next: `s` lists a set of validators from the one
/// that leaves the active partition first.
pub open spec fn ascending(s: Seq<WeightedValidator>) -> bool {
    forall|i: int, j: int| 0 <= i < j < s.len() ==> s[i].precedes(s[j])
}

/// The number of members of `s` that precede `w`.
pub open spec fn rank_in(s: Seq<WeightedValidator>, w: WeightedValidator) -> int
    decreases s.len(),
{
    if s.len() == 0 {
        0
    } else {
        rank_in(s.drop_last(), w) + if s.last().precedes(w) {
            1int
        } else {
            0int
        }
    }
}

/// `s` with `w` among its members, at its place in the order.
pub open spec fn with_member(s: Seq<WeightedValidator>, w: WeightedValidator) -> Seq<
    WeightedValidator,
> {
    if s.contains(w) {
        s
    } else {
        s.insert(rank_in(s, w), w)
    }
}

/// In an ascending list, the members that precede `w` are the first `rank_in`
/// ones.
pub proof fn lemma_rank_in(s: Seq<WeightedValidator>, w: WeightedValidator)
    requires
        ascending(s),
    ensures
        0 <= rank_in(s, w) <= s.len(),
        forall|j: int| 0 <= j < rank_in(s, w) ==> s[j].precedes(w),
        forall|j: int| rank_in(s, w) <= j < s.len() ==> !s[j].precedes(w),
    decreases s.len(),
{
    if s.len() > 0 {
        let t = s.drop_last();
        assert(ascending(t)) by {
            assert forall|i: int, j: int| 0 <= i < j < t.len() implies t[i].precedes(t[j]) by {
                assert(s[i].precedes(s[j]));
            }
        }
        lemma_rank_in(t, w);
        assert forall|j: int| 0 <= j < t.len() implies t[j] == s[j] by {}
        if s.last().precedes(w) {
            if rank_in(t, w) < t.len() {
                let j = rank_in(t, w);
                assert(s[j].precedes(s[s.len() - 1]));
                assert(t[j].precedes(w));
            }
        }
    }
}

/// Putting a member into an ascending list keeps it ascending and adds that
/// member alone.
pub proof fn lemma_with_member(s: Seq<WeightedValidator>, w: WeightedValidator)
    requires
        ascending(s),
    ensures
        ascending(with_member(s, w)),
        forall|x: WeightedValidator|
            #[trigger] with_member(s, w).contains(x) <==> (s.contains(x) || x == w),
        with_member(s, w).len() == s.len() + if s.contains(w) {
            0int
        } else {
            1int
        },
{
    let r = with_member(s, w);
    if s.contains(w) {
    } else {
        let i = rank_in(s, w);
        lemma_rank_in(s, w);
        assert forall|j: int| 0 <= j < i implies r[j] == s[j] by {}
        assert forall|j: int| i < j < r.len() implies r[j] == s[j - 1] by {}
        assert(r[i] == w);
        assert forall|j: int| i <= j < s.len() implies w.precedes(s[j]) by {
            assert(!s[j].precedes(w));
            assert(s.contains(s[j]));
        }
        assert(ascending(r)) by {
            assert forall|a: int, b: int| 0 <= a < b < r.len() implies r[a].precedes(r[b]) by {
                if a < i && b > i {
                    assert(s[a].precedes(w) && w.precedes(s[b - 1]));
                } else if a < i && b < i {
                    assert(s[a].precedes(s[b]));
                } else if a > i {
                    assert(s[a - 1].precedes(s[b - 1]));
                }
            }
        }
        assert forall|x: WeightedValidator| r.contains(x) <==> (s.contains(x) || x == w) by {
            if r.contains(x) {
                let j = choose|j: int| 0 <= j < r.len() && r[j] == x;
                if j < i {
                    assert(s[j] == x);
                } else if j > i {
                    assert(s[j - 1] == x);
                }
            }
            if s.contains(x) {
                let j = choose|j: int| 0 <= j < s.len() && s[j] == x;
                if j < i {
                    assert(r[j] == x);
                } else {
                    assert(r[j + 1] == x);
                }
            }
        }
    }
}

/// An ascending list is fixed by its members.
pub proof fn lemma_ascending_unique(s: Seq<WeightedValidator>, t: Seq<WeightedValidator>)
    requires
        ascending(s),
        ascending(t),
        forall|x: WeightedValidator| s.contains(x) <==> t.contains(x),
    ensures
        s == t,
    decreases s.len(),
{
    if s.len() == 0 {
        if t.len() > 0 {
            assert(t.contains(t[0]));
        }
        assert(s =~= t);
    } else {
        assert(s.contains(s[0]));
        assert(t.len() > 0);
        assert(t.contains(t[0]));
        let i = choose|i: int| 0 <= i < t.len() && t[i] == s[0];
        let j = choose|j: int| 0 <= j < s.len() && s[j] == t[0];
        assert(i == 0) by {
            if i > 0 {
                assert(t[0].precedes(t[i]));
                if j > 0 {
                    assert(s[0].precedes(s[j]));
                }
            }
        }
        let s1 = s.drop_first();
        let t1 = t.drop_first();
        assert forall|a: int| 0 <= a < s1.len() implies s1[a] == s[a + 1] by {}
        assert forall|a: int| 0 <= a < t1.len() implies t1[a] == t[a + 1] by {}
        assert(ascending(s1)) by {
            assert forall|a: int, b: int| 0 <= a < b < s1.len() implies s1[a].precedes(s1[b]) by {
                assert(s[a + 1].precedes(s[b + 1]));
            }
        }
        assert(ascending(t1)) by {
            assert forall|a: int, b: int| 0 <= a < b < t1.len() implies t1[a].precedes(t1[b]) by {
                assert(t[a + 1].precedes(t[b + 1]));
            }
        }
        assert forall|x: WeightedValidator| s1.contains(x) <==> t1.contains(x) by {
            if s1.contains(x) {
                let a = choose|a: int| 0 <= a < s1.len() && s1[a] == x;
                assert(s[a + 1] == x);
                assert(s.contains(x));
                assert(s[0].precedes(s[a + 1]));
                let b = choose|b: int| 0 <= b < t.len() && t[b] == x;
                assert(b > 0);
                assert(t1[b - 1] == x);
            }
            if t1.contains(x) {
                let a = choose|a: int| 0 <= a < t1.len() && t1[a] == x;
                assert(t[a + 1] == x);
                assert(t.contains(x));
                assert(t[0].precedes(t[a + 1]));
                let b = choose|b: int| 0 <= b < s.len() && s[b] == x;
                assert(b > 0);
                assert(s1[b - 1] == x);
            }
        }
        lemma_ascending_unique(s1, t1);
        assert(s =~= seq![s[0]] + s1);
        assert(t =~= seq![t[0]] + t1);
    }
}

/// The sum of the voting power of the members of `s`.
pub open spec fn members_power(s: Seq<WeightedValidator>) -> nat
    decreases s.len(),
{
    if s.len() == 0 {
        0
    } else {
        members_power(s.drop_last()) + s.last().voting_power.0 as nat
    }
}

/// One more member adds its power to the sum.
pub proof fn lemma_insert_power(s: Seq<WeightedValidator>, i: int, w: WeightedValidator)
    requires
        0 <= i <= s.len(),
    ensures
        members_power(s.insert(i, w)) == members_power(s) + w.voting_power.0,
    decreases s.len(),
{
    if i == s.len() {
        assert(s.insert(i, w).drop_last() =~= s);
    } else {
        lemma_insert_power(s.drop_last(), i, w);
        assert(s.insert(i, w).drop_last() =~= s.drop_last().insert(i, w));
        assert(s.insert(i, w).last() == s.last());
    }
}

/// Without its first member a list has the power of that member less.
pub proof fn lemma_drop_first_power(s: Seq<WeightedValidator>)
    requires
        s.len() > 0,
    ensures
        members_power(s) == members_power(s.drop_first()) + s[0].voting_power.0,
    decreases s.len(),
{
    if s.len() == 1 {
        assert(s.drop_first() =~= s.drop_last());
    } else {
        lemma_drop_first_power(s.drop_last());
        assert(s.drop_first().drop_last() =~= s.drop_last().drop_first());
        assert(s.drop_first().last() == s.last());
    }
}

/// A new member adds its power to the sum; one that is there already adds
/// nothing.
pub proof fn lemma_with_member_power(s: Seq<WeightedValidator>, w: WeightedValidator)
    requires
        ascending(s),
    ensures
        members_power(with_member(s, w)) == members_power(s) + if s.contains(w) {
            0nat
        } else {
            w.voting_power.0 as nat
        },
{
    if !s.contains(w) {
        lemma_rank_in(s, w);
        lemma_insert_power(s, rank_in(s, w), w);
    }
}

/// What a validator set holds: each partition listed from the member that
/// would leave the active partition first.
pub struct ValidatorSetView {
    pub active: Seq<WeightedValidator>,
    pub inactive: Seq<WeightedValidator>,
}

impl ValidatorSetView {
    /// Both partitions are in order, each member listed once.
    pub open spec fn wf(self) -> bool {
        ascending(self.active) && ascending(self.inactive)
    }

    /// `w` is a member, of either partition.
    pub open spec fn has_member(self, w: WeightedValidator) -> bool {
        self.active.contains(w) || self.inactive.contains(w)
    }

    /// Some member has the address `a`.
    pub open spec fn has_address(self, a: Address) -> bool {
        exists|w: WeightedValidator| self.has_member(w) && w.address == a
    }

    /// The active partition holds no more than `max` validators.
    pub open spec fn within_capacity(self, max: u64) -> bool {
        self.active.len() <= max
    }

    /// No inactive validator has more power than an active one.
    pub open spec fn no_inversion(self) -> bool {
        forall|a: WeightedValidator, b: WeightedValidator|
            self.active.contains(a) && self.inactive.contains(b) ==> a.voting_power.0
                >= b.voting_power.0
    }

    /// No inactive validator has more power than `power`.
    pub open spec fn inactive_at_most(self, power: u64) -> bool {
        forall|b: WeightedValidator| self.inactive.contains(b) ==> b.voting_power.0 <= power
    }

    /// No validator is a member of both partitions.
    pub open spec fn disjoint(self) -> bool {
        forall|a: WeightedValidator| !(self.active.contains(a) && self.inactive.contains(a))
    }

    /// The sum of the voting power of all members, active and inactive.
    pub open spec fn total_power(self) -> nat {
        members_power(self.active) + members_power(self.inactive)
    }

    /// The partitions are ranked for the capacity `max`: the active one is
    /// within it, no inactive validator has more power than an active one,
    /// and while the active partition has room only validators without
    /// voting power wait in the inactive one.
    pub open spec fn ranked(self, max: u64) -> bool {
        &&& self.within_capacity(max)
        &&& self.no_inversion()
        &&& self.active.len() < max ==> self.inactive_at_most(0)
    }

    /// Each address belongs to one member, and that member to one partition.
    pub open spec fn distinct_addresses(self) -> bool {
        &&& forall|a: WeightedValidator, b: WeightedValidator|
            self.has_member(a) && self.has_member(b) && a.address == b.address ==> a == b
        &&& self.disjoint()
    }

    /// Whether a new validator `w` goes to the active partition: where that
    /// partition has room, or `w` has more power than its weakest member.
    pub open spec fn enters_active(self, w: WeightedValidator, max: u64) -> bool {
        self.active.len() < max || (self.active.len() > 0 && w.voting_power.0
            > self.active[0].voting_power.0)
    }

    /// The set with `w` in the partition that it goes to.
    pub open spec fn placed(self, w: WeightedValidator, max: u64) -> ValidatorSetView {
        if self.enters_active(w, max) {
            ValidatorSetView { active: with_member(self.active, w), inactive: self.inactive }
        } else {
            ValidatorSetView { active: self.active, inactive: with_member(self.inactive, w) }
        }
    }

    /// The set with its weakest active member moved to the inactive partition.
    pub open spec fn demoted(self) -> ValidatorSetView {
        ValidatorSetView {
            active: self.active.drop_first(),
            inactive: with_member(self.inactive, self.active[0]),
        }
    }

    /// The set after the weakest active members were demoted, one after the
    /// other, until the active partition holds no more than `max`.
    pub open spec fn rebalanced(self, max: u64) -> ValidatorSetView
        decreases self.active.len(),
    {
        if self.active.len() > max {
            self.demoted().rebalanced(max)
        } else {
            self
        }
    }

    /// The set after `w` was inserted: placed, then rebalanced.
    pub open spec fn inserted(self, w: WeightedValidator, max: u64) -> ValidatorSetView {
        self.placed(w, max).rebalanced(max)
    }

    /// The set with `w` in the inactive partition.
    pub open spec fn with_inactive(self, w: WeightedValidator) -> ValidatorSetView {
        ValidatorSetView { active: self.active, inactive: with_member(self.inactive, w) }
    }

    /// The set with `w` in the active partition.
    pub open spec fn with_active(self, w: WeightedValidator) -> ValidatorSetView {
        ValidatorSetView { active: with_member(self.active, w), inactive: self.inactive }
    }
}

/// Without its first member an ascending list is still ascending, and the
/// first member is no longer in it.
pub proof fn lemma_drop_first_ascending(s: Seq<WeightedValidator>)
    requires
        ascending(s),
        s.len() > 0,
    ensures
        ascending(s.drop_first()),
        !s.drop_first().contains(s[0]),
        forall|x: WeightedValidator| s.contains(x) <==> (s.drop_first().contains(x) || x == s[0]),
        forall|x: WeightedValidator|
            s.drop_first().contains(x) ==> x.voting_power.0 >= s[0].voting_power.0,
{
    let t = s.drop_first();
    assert forall|a: int| 0 <= a < t.len() implies t[a] == s[a + 1] by {}
    assert(ascending(t)) by {
        assert forall|a: int, b: int| 0 <= a < b < t.len() implies t[a].precedes(t[b]) by {
            assert(s[a + 1].precedes(s[b + 1]));
        }
    }
    assert forall|x: WeightedValidator| t.contains(x) implies x.voting_power.0
        >= s[0].voting_power.0 && x != s[0] && s.contains(x) by {
        let a = choose|a: int| 0 <= a < t.len() && t[a] == x;
        assert(s[0].precedes(s[a + 1]));
    }
    assert forall|x: WeightedValidator| s.contains(x) implies t.contains(x) || x == s[0] by {
        let a = choose|a: int| 0 <= a < s.len() && s[a] == x;
        if a > 0 {
            assert(t[a - 1] == x);
        }
    }
    assert(s.contains(s[0]));
}

/// Placing a validator keeps both partitions in order and adds that validator
/// alone.
pub proof fn lemma_placed_members(s: ValidatorSetView, w: WeightedValidator, max: u64)
    requires
        s.wf(),
    ensures
        s.placed(w, max).wf(),
        forall|x: WeightedValidator|
            #[trigger] s.placed(w, max).active.contains(x) <==> (s.active.contains(x) || (x == w
                && s.enters_active(w, max))),
        forall|x: WeightedValidator|
            #[trigger] s.placed(w, max).inactive.contains(x) <==> (s.inactive.contains(x) || (x
                == w && !s.enters_active(w, max))),
{
    lemma_with_member(s.active, w);
    lemma_with_member(s.inactive, w);
}

/// Placing a validator keeps the ranking where the new validator goes to an
/// active partition that is full, or has no less power than every inactive
/// one.
pub proof fn lemma_placed_ranking(s: ValidatorSetView, w: WeightedValidator, max: u64)
    requires
        s.wf(),
        s.no_inversion(),
        s.active.len() < max ==> s.inactive_at_most(w.voting_power.0),
    ensures
        s.placed(w, max).no_inversion(),
{
    let r = s.placed(w, max);
    lemma_placed_members(s, w, max);
    assert forall|a: WeightedValidator, b: WeightedValidator|
        r.active.contains(a) && r.inactive.contains(b) implies a.voting_power.0
        >= b.voting_power.0 by {
        if s.active.len() > 0 {
            lemma_drop_first_ascending(s.active);
            assert(s.active.contains(s.active[0]));
        }
        if s.active.contains(a) && s.inactive.contains(b) {
        } else if s.enters_active(w, max) {
            assert(a == w && s.inactive.contains(b));
            if s.active.len() < max {
            } else {
                assert(s.active.contains(s.active[0]));
            }
        } else {
            assert(b == w && s.active.contains(a));
            assert(s.active.len() > 0);
            assert(a == s.active[0] || s.active.drop_first().contains(a));
        }
    }
}

/// Placing a validator with a new address keeps each address with one member.
pub proof fn lemma_placed_addresses(s: ValidatorSetView, w: WeightedValidator, max: u64)
    requires
        s.wf(),
        s.distinct_addresses(),
        !s.has_address(w.address),
    ensures
        s.placed(w, max).distinct_addresses(),
{
    let r = s.placed(w, max);
    lemma_placed_members(s, w, max);
    assert forall|x: WeightedValidator| s.has_member(x) implies x.address != w.address by {}
    assert forall|a: WeightedValidator, b: WeightedValidator|
        r.has_member(a) && r.has_member(b) && a.address == b.address implies a == b by {
        if a != w {
            assert(s.has_member(a));
        }
        if b != w {
            assert(s.has_member(b));
        }
    }
    assert forall|a: WeightedValidator| !(r.active.contains(a) && r.inactive.contains(a)) by {
        if r.active.contains(a) && r.inactive.contains(a) {
            if a != w {
                assert(s.active.contains(a) && s.inactive.contains(a));
            } else {
                assert(s.has_member(a));
            }
        }
    }
}

/// Demoting the weakest active member keeps both partitions in order, the
/// members, the ranking, and each address with one member.
pub proof fn lemma_demoted(s: ValidatorSetView)
    requires
        s.wf(),
        s.active.len() > 0,
    ensures
        s.demoted().wf(),
        s.demoted().active.len() == s.active.len() - 1,
        forall|x: WeightedValidator| s.demoted().has_member(x) <==> s.has_member(x),
        s.no_inversion() ==> s.demoted().no_inversion(),
        s.distinct_addresses() ==> s.demoted().distinct_addresses(),
{
    let d = s.demoted();
    let first = s.active[0];
    lemma_drop_first_ascending(s.active);
    lemma_with_member(s.inactive, first);
    assert forall|x: WeightedValidator| d.active.contains(x) implies s.active.contains(x) && x
        != first && x.voting_power.0 >= first.voting_power.0 by {}
    assert forall|x: WeightedValidator| d.inactive.contains(x) implies s.inactive.contains(x) || x
        == first by {}
    assert forall|x: WeightedValidator| d.has_member(x) <==> s.has_member(x) by {
        if s.active.contains(x) {
            assert(d.active.contains(x) || x == first);
            assert(d.inactive.contains(first));
        }
        if s.inactive.contains(x) {
            assert(d.inactive.contains(x));
        }
    }
    if s.no_inversion() {
        assert forall|a: WeightedValidator, b: WeightedValidator|
            d.active.contains(a) && d.inactive.contains(b) implies a.voting_power.0
            >= b.voting_power.0 by {
            assert(s.active.contains(a));
            assert(s.inactive.contains(b) || b == first);
        }
    }
    if s.distinct_addresses() {
        assert forall|a: WeightedValidator, b: WeightedValidator|
            d.has_member(a) && d.has_member(b) && a.address == b.address implies a == b by {
            assert(s.has_member(a) && s.has_member(b));
        }
        assert forall|a: WeightedValidator| !(d.active.contains(a) && d.inactive.contains(a)) by {
            if d.active.contains(a) && d.inactive.contains(a) {
                assert(s.active.contains(a) && a != first);
                assert(s.inactive.contains(a));
            }
        }
    }
}

/// Demoting and rebalancing leave the sum of the voting power of all members
/// as it is, and no validator in both partitions, where none was in both.
pub proof fn lemma_rebalanced_power(s: ValidatorSetView, max: u64)
    requires
        s.wf(),
        s.disjoint(),
    ensures
        s.rebalanced(max).disjoint(),
        s.rebalanced(max).total_power() == s.total_power(),
    decreases s.active.len(),
{
    if s.active.len() > max {
        let d = s.demoted();
        let first = s.active[0];
        lemma_demoted(s);
        lemma_drop_first_ascending(s.active);
        lemma_drop_first_power(s.active);
        lemma_with_member(s.inactive, first);
        lemma_with_member_power(s.inactive, first);
        assert(s.active.contains(first));
        assert forall|a: WeightedValidator| !(d.active.contains(a) && d.inactive.contains(a)) by {
            if d.active.contains(a) && d.inactive.contains(a) {
                assert(s.active.contains(a));
                assert(a != first);
                assert(s.inactive.contains(a));
            }
        }
        lemma_rebalanced_power(d, max);
    }
}

/// A validator that is not a member adds its power to the sum over all members
/// when it is inserted, and is in one partition afterwards.
pub proof fn lemma_inserted_power(s: ValidatorSetView, w: WeightedValidator, max: u64)
    requires
        s.wf(),
        s.disjoint(),
        !s.has_member(w),
    ensures
        s.inserted(w, max).disjoint(),
        s.inserted(w, max).total_power() == s.total_power() + w.voting_power.0,
{
    let p = s.placed(w, max);
    lemma_placed_members(s, w, max);
    lemma_with_member_power(s.active, w);
    lemma_with_member_power(s.inactive, w);
    assert forall|a: WeightedValidator| !(p.active.contains(a) && p.inactive.contains(a)) by {
        if p.active.contains(a) && p.inactive.contains(a) {
            if a != w {
                assert(s.active.contains(a) && s.inactive.contains(a));
            }
        }
    }
    lemma_rebalanced_power(p, max);
}

/// Rebalancing brings the active partition within its capacity, and keeps
/// both partitions in order, the members, the ranking, and each address with
/// one member.
pub proof fn lemma_rebalanced(s: ValidatorSetView, max: u64)
    requires
        s.wf(),
    ensures
        s.rebalanced(max).wf(),
        s.rebalanced(max).within_capacity(max),
        s.rebalanced(max).active.len() == if s.active.len() > max {
            max as int
        } else {
            s.active.len() as int
        },
        forall|x: WeightedValidator| s.rebalanced(max).has_member(x) <==> s.has_member(x),
        s.no_inversion() ==> s.rebalanced(max).no_inversion(),
        s.distinct_addresses() ==> s.rebalanced(max).distinct_addresses(),
    decreases s.active.len(),
{
    if s.active.len() > max {
        lemma_demoted(s);
        lemma_rebalanced(s.demoted(), max);
    }
}

/// After a validator was inserted the active partition is within its
/// capacity, and holds no validator with less power than an inactive one,
/// provided that this held before and that the new validator does not enter
/// an active partition with room while an inactive validator has more power
/// than it. Each address stays with one member where the new address is new.
pub proof fn lemma_inserted(s: ValidatorSetView, w: WeightedValidator, max: u64)
    requires
        s.wf(),
    ensures
        s.inserted(w, max).wf(),
        s.inserted(w, max).within_capacity(max),
        forall|x: WeightedValidator|
            s.inserted(w, max).has_member(x) <==> (s.has_member(x) || x == w),
        s.no_inversion() && (s.active.len() < max ==> s.inactive_at_most(w.voting_power.0))
            ==> s.inserted(w, max).no_inversion(),
        s.distinct_addresses() && !s.has_address(w.address) ==> s.inserted(
            w,
            max,
        ).distinct_addresses(),
{
    lemma_placed_members(s, w, max);
    if s.no_inversion() && (s.active.len() < max ==> s.inactive_at_most(w.voting_power.0)) {
        lemma_placed_ranking(s, w, max);
    }
    if s.distinct_addresses() && !s.has_address(w.address) {
        lemma_placed_addresses(s, w, max);
    }
    lemma_rebalanced(s.placed(w, max), max);
    let p = s.placed(w, max);
    let r = s.inserted(w, max);
    assert forall|x: WeightedValidator| r.has_member(x) <==> (s.has_member(x) || x == w) by {
        assert(r.has_member(x) <==> p.has_member(x));
        assert(p.active.contains(x) <==> (s.active.contains(x) || (x == w && s.enters_active(w, max))));
        assert(p.inactive.contains(x) <==> (s.inactive.contains(x) || (x == w && !s.enters_active(
            w,
            max,
        ))));
    }
}

/// Inserting a validator into a set that is ranked for a capacity leaves it
/// ranked for that capacity.
pub proof fn lemma_inserted_ranked(s: ValidatorSetView, w: WeightedValidator, max: u64)
    requires
        s.wf(),
        s.ranked(max),
    ensures
        s.inserted(w, max).wf(),
        s.inserted(w, max).ranked(max),
{
    let p = s.placed(w, max);
    lemma_inserted(s, w, max);
    lemma_placed_members(s, w, max);
    lemma_with_member(s.active, w);
    lemma_with_member(s.inactive, w);
    lemma_rebalanced(p, max);
    if s.active.len() < max {
        assert(s.inactive_at_most(w.voting_power.0));
        assert(p.active.len() <= max);
        assert(s.inserted(w, max) == p);
    }
}

/// A validator without voting power that enters the inactive partition leaves
/// a ranked set ranked.
pub proof fn lemma_with_inactive_ranked(s: ValidatorSetView, w: WeightedValidator, max: u64)
    requires
        s.wf(),
        s.ranked(max),
        w.voting_power.0 == 0,
    ensures
        s.with_inactive(w).wf(),
        s.with_inactive(w).ranked(max),
{
    lemma_with_member(s.inactive, w);
}

/// Puts `w` at its place in an ascending list, unless it is there already.
fn insert_sorted(members: &mut Vec<WeightedValidator>, w: WeightedValidator)
    requires
        ascending(old(members)@),
    ensures
        ascending(final(members)@),
        final(members)@ == with_member(old(members)@, w),
{
    let ghost s = members@;
    let mut i: usize = 0;
    while i < members.len() && members[i].is_before(&w)
        invariant
            i <= members.len(),
            members@ == s,
            forall|j: int| 0 <= j < i ==> s[j].precedes(w),
        decreases members.len() - i,
    {
        i = i + 1;
    }
    proof {
        lemma_rank_in(s, w);
        lemma_with_member(s, w);
        assert forall|j: int| i <= j < s.len() implies !s[j].precedes(w) by {
            if j > i {
                assert(s[i as int].precedes(s[j]));
            }
        }
        assert(rank_in(s, w) == i) by {
            let r = rank_in(s, w);
            if r < i {
                assert(s[r].precedes(w));
            } else if r > i {
                assert(s[i as int].precedes(w));
            }
        }
        if s.contains(w) {
            let j = choose|j: int| 0 <= j < s.len() && s[j] == w;
            assert(j == i) by {
                if j < i {
                    assert(s[j].precedes(w));
                } else if j > i {
                    assert(s[i as int].precedes(s[j]));
                }
            }
        }
    }
    let present: bool = i < members.len() && members[i].voting_power.0 == w.voting_power.0
        && members[i].address.0 == w.address.0;
    if !present {
        members.insert(i, w);
    }
}

/// Each member outranks the next: `s` lists validators as consensus does,
/// the strongest first, and among equal powers the lower address first.
pub open spec fn by_rank(s: Seq<WeightedValidator>) -> bool {
    forall|i: int, j: int| 0 <= i < j < s.len() ==> s[i].outranks(s[j])
}

/// A list with one more member holds that member and what it held before.
proof fn lemma_insert_members(s: Seq<WeightedValidator>, i: int, w: WeightedValidator)
    requires
        0 <= i <= s.len(),
    ensures
        forall|x: WeightedValidator| #[trigger] s.insert(i, w).contains(x) <==> (s.contains(x) || x == w),
{
    let r = s.insert(i, w);
    assert forall|x: WeightedValidator| #[trigger] r.contains(x) <==> (s.contains(x) || x == w) by {
        if r.contains(x) {
            let j = choose|j: int| 0 <= j < r.len() && r[j] == x;
            if j < i {
                assert(s[j] == x);
            } else if j > i {
                assert(s[j - 1] == x);
            }
        }
        if s.contains(x) {
            let j = choose|j: int| 0 <= j < s.len() && s[j] == x;
            if j < i {
                assert(r[j] == x);
            } else {
                assert(r[j + 1] == x);
            }
        }
        if x == w {
            assert(r[i] == x);
        }
    }
}

/// The members of an ascending list in the order of their rank.
fn list_by_rank(members: &Vec<WeightedValidator>) -> (r: Vec<WeightedValidator>)
    requires
        ascending(members@),
    ensures
        by_rank(r@),
        r@.len() == members@.len(),
        forall|x: WeightedValidator| r@.contains(x) <==> members@.contains(x),
{
    let ghost s = members@;
    let mut r: Vec<WeightedValidator> = Vec::new();
    let mut n: usize = 0;
    while n < members.len()
        invariant
            n <= members.len(),
            members@ == s,
            ascending(s),
            by_rank(r@),
            r@.len() == n,
            forall|x: WeightedValidator|
                r@.contains(x) <==> exists|k: int| 0 <= k < n && #[trigger] s[k] == x,
        decreases members.len() - n,
    {
        let w = members[n];
        let ghost before = r@;
        let mut i: usize = 0;
        while i < r.len() && r[i].ranks_above(&w)
            invariant
                i <= r.len(),
                r@ == before,
                forall|j: int| 0 <= j < i ==> before[j].outranks(w),
            decreases r.len() - i,
        {
            i = i + 1;
        }
        r.insert(i, w);
        proof {
            lemma_insert_members(before, i as int, w);
            assert forall|j: int| 0 <= j < before.len() implies before[j] != w by {
                assert(before.contains(before[j]));
                let k = choose|k: int| 0 <= k < n && #[trigger] s[k] == before[j];
                assert(s[k].precedes(s[n as int]));
            }
            assert forall|j: int| i <= j < before.len() implies w.outranks(before[j]) by {
                if j > i {
                    assert(before[i as int].outranks(before[j]));
                }
            }
            assert(by_rank(r@)) by {
                assert forall|a: int, b: int| 0 <= a < b < r@.len() implies r@[a].outranks(
                    r@[b],
                ) by {
                    if a < i && b > i {
                        assert(before[a].outranks(w) && w.outranks(before[b - 1]));
                    } else if a < i && b < i {
                        assert(before[a].outranks(before[b]));
                    } else if a > i {
                        assert(before[a - 1].outranks(before[b - 1]));
                    }
                }
            }
            assert forall|x: WeightedValidator| r@.contains(x) <==> exists|k: int|
                0 <= k < n + 1 && #[trigger] s[k] == x by {
                if before.contains(x) {
                    let k = choose|k: int| 0 <= k < n && #[trigger] s[k] == x;
                    assert(0 <= k < n + 1 && s[k] == x);
                }
                if x == w {
                    assert(s[n as int] == x);
                }
                if exists|k: int| 0 <= k < n + 1 && #[trigger] s[k] == x {
                    let k = choose|k: int| 0 <= k < n + 1 && #[trigger] s[k] == x;
                    if k < n {
                        assert(before.contains(x));
                    }
                }
            }
        }
        n = n + 1;
    }
    proof {
        assert forall|x: WeightedValidator| r@.contains(x) <==> s.contains(x) by {
            if r@.contains(x) {
                let k = choose|k: int| 0 <= k < n && #[trigger] s[k] == x;
                assert(s[k] == x);
            }
            if s.contains(x) {
                let k = choose|k: int| 0 <= k < s.len() && s[k] == x;
                assert(0 <= k < n && s[k] == x);
            }
        }
    }
    r
}

fn copy_members(members: &Vec<WeightedValidator>) -> (r: Vec<WeightedValidator>)
    ensures
        r@ == members@,
{
    let mut r: Vec<WeightedValidator> = Vec::new();
    let mut i: usize = 0;
    while i < members.len()
        invariant
            i <= members.len(),
            r@ == members@.subrange(0, i as int),
        decreases members.len() - i,
    {
        r.push(members[i]);
        assert(r@ =~= members@.subrange(0, i + 1));
        i = i + 1;
    }
    assert(r@ =~= members@);
    r
}

/// The validators known at one epoch: the active partition, which takes part
/// in consensus, and the inactive one.
#[derive(Debug, PartialEq, Eq)]
pub struct ValidatorSet {
    active: Vec<WeightedValidator>,
    inactive: Vec<WeightedValidator>,
}

impl View for ValidatorSet {
    type V = ValidatorSetView;

    closed spec fn view(&self) -> ValidatorSetView {
        ValidatorSetView { active: self.active@, inactive: self.inactive@ }
    }
}

impl ValidatorSet {
    /// Both partitions are in order, each member listed once.
    pub open spec fn wf(&self) -> bool {
        self@.wf()
    }

    /// The set without validators.
    pub fn new() -> (r: Self)
        ensures
            r.wf(),
            r@.active.len() == 0,
            r@.inactive.len() == 0,
    {
        ValidatorSet { active: Vec::new(), inactive: Vec::new() }
    }

    /// The active partition, from its weakest member.
    pub fn active(&self) -> (r: &Vec<WeightedValidator>)
        ensures
            r@ == self@.active,
    {
        &self.active
    }

    /// The inactive partition, from its weakest member.
    pub fn inactive(&self) -> (r: &Vec<WeightedValidator>)
        ensures
            r@ == self@.inactive,
    {
        &self.inactive
    }

    /// The active validators as consensus lists them: the strongest first,
    /// and among equal powers the lower address first.
    pub fn active_by_rank(&self) -> (r: Vec<WeightedValidator>)
        requires
            self.wf(),
        ensures
            by_rank(r@),
            r@.len() == self@.active.len(),
            forall|x: WeightedValidator| r@.contains(x) <==> self@.active.contains(x),
    {
        list_by_rank(&self.active)
    }

    /// Whether some member, active or inactive, has the address `address`.
    pub fn has_address(&self, address: &Address) -> (r: bool)
        ensures
            r == self@.has_address(*address),
    {
        let mut i: usize = 0;
        while i < self.active.len()
            invariant
                i <= self.active.len(),
                forall|j: int| 0 <= j < i ==> self.active@[j].address != *address,
            decreases self.active.len() - i,
        {
            if self.active[i].address.0 == address.0 {
                assert(self@.has_member(self.active@[i as int]));
                return true;
            }
            i = i + 1;
        }
        let mut k: usize = 0;
        while k < self.inactive.len()
            invariant
                k <= self.inactive.len(),
                forall|j: int| 0 <= j < self.active.len() ==> self.active@[j].address != *address,
                forall|j: int| 0 <= j < k ==> self.inactive@[j].address != *address,
            decreases self.inactive.len() - k,
        {
            if self.inactive[k].address.0 == address.0 {
                assert(self@.has_member(self.inactive@[k as int]));
                return true;
            }
            k = k + 1;
        }
        proof {
            assert forall|w: WeightedValidator| self@.has_member(w) implies w.address
                != *address by {
                if self@.active.contains(w) {
                    let j = choose|j: int| 0 <= j < self@.active.len() && self@.active[j] == w;
                } else {
                    let j = choose|j: int| 0 <= j < self@.inactive.len() && self@.inactive[j] == w;
                }
            }
        }
        false
    }

    /// A set with the same members.
    pub fn duplicate(&self) -> (r: Self)
        ensures
            r@ == self@,
    {
        ValidatorSet { active: copy_members(&self.active), inactive: copy_members(&self.inactive) }
    }

    /// Adds `w` to the active partition, whatever its size.
    pub fn insert_active(&mut self, w: WeightedValidator)
        requires
            old(self).wf(),
        ensures
            final(self).wf(),
            final(self)@ == old(self)@.with_active(w),
    {
        insert_sorted(&mut self.active, w);
    }

    /// Adds `w` to the inactive partition.
    pub fn insert_inactive(&mut self, w: WeightedValidator)
        requires
            old(self).wf(),
        ensures
            final(self).wf(),
            final(self)@ == old(self)@.with_inactive(w),
    {
        insert_sorted(&mut self.inactive, w);
    }

    /// Demotes the weakest active members, among equal powers the lower
    /// address first, until the active partition holds no more than
    /// `max_active_validators`.
    pub fn rebalance(&mut self, max_active_validators: u64)
        requires
            old(self).wf(),
        ensures
            final(self).wf(),
            final(self)@ == old(self)@.rebalanced(max_active_validators),
            final(self)@.within_capacity(max_active_validators),
    {
        proof {
            lemma_rebalanced(self@, max_active_validators);
        }
        while self.active.len() as u64 > max_active_validators
            invariant
                self.wf(),
                self@.rebalanced(max_active_validators) == old(self)@.rebalanced(
                    max_active_validators,
                ),
            decreases self.active.len(),
        {
            proof {
                lemma_demoted(self@);
            }
            let ghost before = self@;
            let weakest = self.active.remove(0);
            insert_sorted(&mut self.inactive, weakest);
            assert(self.active@ =~= before.active.drop_first());
            assert(self@ == before.demoted());
        }
    }

    /// Inserts `w`: into the active partition where that has room or `w` has
    /// more power than its weakest member, else into the inactive one; then
    /// rebalances.
    pub fn insert(&mut self, w: WeightedValidator, max_active_validators: u64)
        requires
            old(self).wf(),
        ensures
            final(self).wf(),
            final(self)@ == old(self)@.inserted(w, max_active_validators),
            final(self)@.within_capacity(max_active_validators),
            forall|x: WeightedValidator|
                final(self)@.has_member(x) <==> (old(self)@.has_member(x) || x == w),
            old(self)@.no_inversion() && (old(self)@.active.len() < max_active_validators
                ==> old(self)@.inactive_at_most(w.voting_power.0)) ==> final(self)@.no_inversion(),
            old(self)@.ranked(max_active_validators) ==> final(self)@.ranked(
                max_active_validators,
            ),
            old(self)@.distinct_addresses() && !old(self)@.has_address(w.address) ==> final(self)@.distinct_addresses(),
    {
        proof {
            lemma_inserted(self@, w, max_active_validators);
            if self@.ranked(max_active_validators) {
                lemma_inserted_ranked(self@, w, max_active_validators);
            }
        }
        if (self.active.len() as u64) < max_active_validators || (self.active.len() > 0
            && w.voting_power.0 > self.active[0].voting_power.0) {
            insert_sorted(&mut self.active, w);
        } else {
            insert_sorted(&mut self.inactive, w);
        }
        self.rebalance(max_active_validators);
    }
}

} // verus!
