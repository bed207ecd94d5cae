//! The records of the first block: the ranked validator set, the total voting
//! power, and for each stakeholder its key, state, stake and self-bond.

use crate::bond::Bond;
use crate::epoched::EpochedValue;
use crate::epoched_delta::EpochedDelta;
use crate::types::{
    Address, BondId, Epoch, GenesisValidator, PosParams, ValidatorState, VotingPower,
    WeightedValidator,
};
use crate::validator_set::{
    ascending, lemma_ascending_unique, lemma_rebalanced, lemma_rebalanced_power,
    lemma_with_member, lemma_with_member_power, members_power, with_member, ValidatorSet,
    ValidatorSetView,
};
use vstd::prelude::*;

verus! {

/// A stakeholder as a member of the validator set: its address, with the power
/// that its tokens give.
pub open spec fn weighted<PK>(v: GenesisValidator<PK>, params: PosParams) -> WeightedValidator {
    WeightedValidator {
        voting_power: VotingPower(VotingPower::of_tokens(v.tokens, params)),
        address: v.address,
    }
}

/// The stakeholders as an ascending list of validators.
pub open spec fn accumulated<PK>(validators: Seq<GenesisValidator<PK>>, params: PosParams) -> Seq<
    WeightedValidator,
>
    decreases validators.len(),
{
    if validators.len() == 0 {
        Seq::empty()
    } else {
        with_member(accumulated(validators.drop_last(), params), weighted(validators.last(), params))
    }
}

/// The validator set of the first block: every stakeholder, with the weakest
/// demoted until the active partition is within its capacity.
pub open spec fn genesis_validator_set<PK>(
    validators: Seq<GenesisValidator<PK>>,
    params: PosParams,
) -> ValidatorSetView {
    ValidatorSetView {
        active: accumulated(validators, params),
        inactive: Seq::empty(),
    }.rebalanced(params.max_active_validators)
}

/// The sum of the voting power of all stakeholders.
pub open spec fn total_power<PK>(validators: Seq<GenesisValidator<PK>>, params: PosParams) -> nat
    decreases validators.len(),
{
    if validators.len() == 0 {
        0
    } else {
        total_power(validators.drop_last(), params) + VotingPower::of_tokens(
            validators.last().tokens,
            params,
        ) as nat
    }
}

/// The accumulated list is ascending, and its members are the stakeholders.
pub proof fn lemma_accumulated<PK>(validators: Seq<GenesisValidator<PK>>, params: PosParams)
    ensures
        ascending(accumulated(validators, params)),
        forall|x: WeightedValidator|
            accumulated(validators, params).contains(x) <==> exists|i: int|
                0 <= i < validators.len() && weighted(#[trigger] validators[i], params) == x,
    decreases validators.len(),
{
    let acc = accumulated(validators, params);
    if validators.len() > 0 {
        let rest = validators.drop_last();
        let last = weighted(validators.last(), params);
        lemma_accumulated(rest, params);
        lemma_with_member(accumulated(rest, params), last);
        let before = accumulated(rest, params);
        assert(acc == with_member(before, last));
        assert forall|i: int| 0 <= i < rest.len() implies rest[i] == validators[i] by {}
        assert forall|x: WeightedValidator| acc.contains(x) <==> exists|i: int|
            0 <= i < validators.len() && weighted(#[trigger] validators[i], params) == x by {
            assert(acc.contains(x) <==> (before.contains(x) || x == last));
            if before.contains(x) {
                let i = choose|i: int|
                    0 <= i < rest.len() && weighted(#[trigger] rest[i], params) == x;
                assert(weighted(validators[i], params) == x);
            }
            if x == last {
                assert(weighted(validators[validators.len() - 1], params) == x);
            }
            if exists|i: int|
                0 <= i < validators.len() && weighted(#[trigger] validators[i], params) == x {
                let i = choose|i: int|
                    0 <= i < validators.len() && weighted(#[trigger] validators[i], params) == x;
                if i < rest.len() {
                    assert(weighted(rest[i], params) == x);
                    assert(before.contains(x));
                } else {
                    assert(x == last);
                }
            }
        }
    }
}

/// The validator set of the first block is in order and ranked for its
/// capacity: within it, and with no inactive validator that has more power
/// than an active one. Its members are the stakeholders.
pub proof fn lemma_genesis_validator_set_ranked<PK>(
    validators: Seq<GenesisValidator<PK>>,
    params: PosParams,
)
    ensures
        genesis_validator_set(validators, params).wf(),
        genesis_validator_set(validators, params).within_capacity(params.max_active_validators),
        genesis_validator_set(validators, params).no_inversion(),
        genesis_validator_set(validators, params).ranked(params.max_active_validators),
        forall|x: WeightedValidator|
            genesis_validator_set(validators, params).has_member(x) <==> exists|i: int|
                0 <= i < validators.len() && weighted(#[trigger] validators[i], params) == x,
{
    let all = ValidatorSetView { active: accumulated(validators, params), inactive: Seq::empty() };
    lemma_accumulated(validators, params);
    lemma_rebalanced(all, params.max_active_validators);
    let r = genesis_validator_set(validators, params);
    if all.active.len() <= params.max_active_validators {
        assert(r == all);
    }
    assert forall|x: WeightedValidator| r.has_member(x) <==> exists|i: int|
        0 <= i < validators.len() && weighted(#[trigger] validators[i], params) == x by {
        assert(r.has_member(x) <==> all.has_member(x));
        assert(all.has_member(x) <==> all.active.contains(x));
    }
}

/// No two stakeholders have the same address.
pub open spec fn distinct_addresses<PK>(validators: Seq<GenesisValidator<PK>>) -> bool {
    forall|i: int, j: int|
        0 <= i < j < validators.len() ==> validators[i].address != validators[j].address
}

/// Where no two stakeholders have the same address, the total voting power is
/// the sum of the voting power of the members of the validator set, and each
/// address belongs to one member of one partition.
pub proof fn lemma_genesis_total_is_members_total<PK>(
    validators: Seq<GenesisValidator<PK>>,
    params: PosParams,
)
    requires
        distinct_addresses(validators),
    ensures
        genesis_validator_set(validators, params).total_power() == total_power(validators, params),
        genesis_validator_set(validators, params).distinct_addresses(),
{
    let all = ValidatorSetView { active: accumulated(validators, params), inactive: Seq::empty() };
    lemma_accumulated(validators, params);
    lemma_accumulated_power(validators, params);
    lemma_rebalanced(all, params.max_active_validators);
    lemma_rebalanced_power(all, params.max_active_validators);
    assert forall|a: WeightedValidator, b: WeightedValidator|
        all.has_member(a) && all.has_member(b) && a.address == b.address implies a == b by {
        let i = choose|i: int|
            0 <= i < validators.len() && weighted(#[trigger] validators[i], params) == a;
        let j = choose|j: int|
            0 <= j < validators.len() && weighted(#[trigger] validators[j], params) == b;
        if i < j {
            assert(validators[i].address != validators[j].address);
        } else if j < i {
            assert(validators[j].address != validators[i].address);
        }
    }
    assert(all.distinct_addresses());
}

/// Where no two stakeholders have the same address, the accumulated list has
/// the total voting power of the stakeholders.
pub proof fn lemma_accumulated_power<PK>(validators: Seq<GenesisValidator<PK>>, params: PosParams)
    requires
        distinct_addresses(validators),
    ensures
        members_power(accumulated(validators, params)) == total_power(validators, params),
    decreases validators.len(),
{
    if validators.len() > 0 {
        let rest = validators.drop_last();
        let last = weighted(validators.last(), params);
        assert forall|i: int| 0 <= i < rest.len() implies rest[i] == validators[i] by {}
        assert(distinct_addresses(rest)) by {
            assert forall|i: int, j: int| 0 <= i < j < rest.len() implies rest[i].address
                != rest[j].address by {
                assert(validators[i].address != validators[j].address);
            }
        }
        lemma_accumulated_power(rest, params);
        lemma_accumulated(rest, params);
        let before = accumulated(rest, params);
        if before.contains(last) {
            let i = choose|i: int| 0 <= i < rest.len() && weighted(#[trigger] rest[i], params) == last;
            assert(validators[i].address != validators[validators.len() - 1].address);
        }
        lemma_with_member_power(before, last);
    }
}

/// Without one stakeholder the total is less by the power of that one.
pub proof fn lemma_total_power_remove<PK>(
    validators: Seq<GenesisValidator<PK>>,
    params: PosParams,
    i: int,
)
    requires
        0 <= i < validators.len(),
    ensures
        total_power(validators, params) == total_power(validators.remove(i), params)
            + VotingPower::of_tokens(validators[i].tokens, params),
    decreases validators.len(),
{
    if i == validators.len() - 1 {
        assert(validators.remove(i) =~= validators.drop_last());
    } else {
        let rest = validators.drop_last();
        lemma_total_power_remove(rest, params, i);
        assert(validators.remove(i).drop_last() =~= rest.remove(i));
        assert(validators.remove(i).last() == validators.last());
    }
}

/// The total of the first stakeholders is no more than the total of all.
pub proof fn lemma_total_power_prefix<PK>(
    validators: Seq<GenesisValidator<PK>>,
    params: PosParams,
    n: int,
)
    requires
        0 <= n <= validators.len(),
    ensures
        total_power(validators.subrange(0, n), params) <= total_power(validators, params),
    decreases validators.len() - n,
{
    if n == validators.len() {
        assert(validators.subrange(0, n) =~= validators);
    } else {
        lemma_total_power_prefix(validators, params, n + 1);
        assert(validators.subrange(0, n + 1).drop_last() =~= validators.subrange(0, n));
    }
}

/// The total voting power does not depend on the order of the stakeholders.
pub proof fn lemma_total_power_order_independent<PK>(
    a: Seq<GenesisValidator<PK>>,
    b: Seq<GenesisValidator<PK>>,
    params: PosParams,
)
    requires
        a.to_multiset() == b.to_multiset(),
    ensures
        total_power(a, params) == total_power(b, params),
    decreases a.len(),
{
    a.to_multiset_ensures();
    b.to_multiset_ensures();
    assert(a.len() == a.to_multiset().len());
    assert(b.len() == b.to_multiset().len());
    if a.len() > 0 {
        let x = a.last();
        let rest = a.drop_last();
        rest.to_multiset_ensures();
        assert(a =~= rest.push(x));
        assert(a.contains(x));
        assert(a.to_multiset().count(x) > 0);
        assert(b.to_multiset().count(x) > 0);
        assert(b.contains(x));
        let i = choose|i: int| 0 <= i < b.len() && b[i] == x;
        assert(rest.to_multiset() =~= a.to_multiset().remove(x)) by {
            assert(rest.push(x).to_multiset() =~= rest.to_multiset().insert(x));
        }
        assert(b.remove(i).to_multiset() =~= b.to_multiset().remove(x));
        lemma_total_power_order_independent(rest, b.remove(i), params);
        lemma_total_power_remove(b, params, i);
    }
}

/// The data of the first block does not depend on the order in which the
/// stakeholders are given: the validator set and the total voting power of a
/// list and of any permutation of it are the same.
pub proof fn lemma_genesis_order_independent<PK>(
    a: Seq<GenesisValidator<PK>>,
    b: Seq<GenesisValidator<PK>>,
    params: PosParams,
)
    requires
        a.to_multiset() == b.to_multiset(),
    ensures
        genesis_validator_set(a, params) == genesis_validator_set(b, params),
        total_power(a, params) == total_power(b, params),
{
    a.to_multiset_ensures();
    b.to_multiset_ensures();
    lemma_total_power_order_independent(a, b, params);
    lemma_accumulated(a, params);
    lemma_accumulated(b, params);
    let s = accumulated(a, params);
    let t = accumulated(b, params);
    assert forall|x: WeightedValidator| s.contains(x) <==> t.contains(x) by {
        if s.contains(x) {
            let i = choose|i: int| 0 <= i < a.len() && weighted(#[trigger] a[i], params) == x;
            assert(a.contains(a[i]));
            assert(a.to_multiset().count(a[i]) > 0);
            assert(b.to_multiset().count(a[i]) > 0);
            assert(b.contains(a[i]));
            let j = choose|j: int| 0 <= j < b.len() && b[j] == a[i];
            assert(weighted(b[j], params) == x);
        }
        if t.contains(x) {
            let i = choose|i: int| 0 <= i < b.len() && weighted(#[trigger] b[i], params) == x;
            assert(b.contains(b[i]));
            assert(b.to_multiset().count(b[i]) > 0);
            assert(a.to_multiset().count(b[i]) > 0);
            assert(a.contains(b[i]));
            let j = choose|j: int| 0 <= j < a.len() && a[j] == b[i];
            assert(weighted(a[j], params) == x);
        }
    }
    lemma_ascending_unique(s, t);
}

/// What is written for one stakeholder of the first block.
#[derive(Debug, PartialEq, Eq)]
pub struct GenesisValidatorData<PK> {
    pub address: Address,
    pub staking_reward_address: Address,
    pub consensus_key: EpochedValue<PK>,
    pub state: EpochedValue<ValidatorState>,
    pub total_deltas: EpochedDelta,
    pub voting_power: EpochedValue<VotingPower>,
    pub bond: (BondId, EpochedValue<Bond>),
}

impl<PK: View> GenesisValidatorData<PK> {
    /// These are the records of the stakeholder `v`: its key, the state
    /// `Candidate`, its tokens as the first increment of its stake, the power
    /// of those tokens, and a bond of them from itself to itself, all from
    /// `epoch` on.
    pub open spec fn is_for(&self, v: GenesisValidator<PK>, params: PosParams, epoch: Epoch) -> bool {
        &&& self.address == v.address
        &&& self.staking_reward_address == v.staking_reward_address
        &&& self.consensus_key.wf()
        &&& self.consensus_key@ == Map::<int, PK::V>::empty().insert(
            epoch.0 as int,
            v.consensus_key@,
        )
        &&& self.state.wf()
        &&& self.state@ == Map::<int, ValidatorState>::empty().insert(
            epoch.0 as int,
            ValidatorState::Candidate,
        )
        &&& self.total_deltas.wf()
        &&& self.total_deltas@ == Map::<int, int>::empty().insert(epoch.0 as int, v.tokens as int)
        &&& self.voting_power.wf()
        &&& self.voting_power@ == Map::<int, VotingPower>::empty().insert(
            epoch.0 as int,
            weighted(v, params).voting_power,
        )
        &&& self.bond.0 == (BondId { source: v.address, validator: v.address })
        &&& self.bond.1.wf()
        &&& self.bond.1@ == Map::<int, Map<int, u64>>::empty().insert(
            epoch.0 as int,
            Map::<int, u64>::empty().insert(epoch.0 as int, v.tokens),
        )
    }
}

/// What is written at the first block.
#[derive(Debug, PartialEq, Eq)]
pub struct GenesisData<PK> {
    /// The records of each stakeholder, in the order in which they were given.
    pub validators: Vec<GenesisValidatorData<PK>>,
    /// The active and the inactive validators.
    pub validator_set: EpochedValue<ValidatorSet>,
    /// The sum of the voting power of all validators, active and inactive.
    pub total_voting_power: EpochedValue<VotingPower>,
}

/// The records of one stakeholder.
fn genesis_validator_data<PK: View + Copy>(
    params: &PosParams,
    validator: &GenesisValidator<PK>,
    current_epoch: Epoch,
) -> (r: GenesisValidatorData<PK>)
    ensures
        r.is_for(*validator, *params, current_epoch),
{
    let consensus_key = EpochedValue::init_at_genesis(validator.consensus_key, current_epoch);
    let state = EpochedValue::init_at_genesis(ValidatorState::Candidate, current_epoch);
    let total_deltas = EpochedDelta::init_at_genesis(validator.tokens as i128, current_epoch);
    let voting_power = EpochedValue::init_at_genesis(
        VotingPower::from_tokens(validator.tokens, params),
        current_epoch,
    );
    let bond_id = BondId { source: validator.address, validator: validator.address };
    let bond = EpochedValue::init_at_genesis(Bond::new(current_epoch, validator.tokens), current_epoch);
    GenesisValidatorData {
        address: validator.address,
        staking_reward_address: validator.staking_reward_address,
        consensus_key,
        state,
        total_deltas,
        voting_power,
        bond: (bond_id, bond),
    }
}

/// The data of the first block, made from the stakeholders: each one's own
/// records, the validator set with the weakest stakeholders demoted until the
/// active partition is within its capacity, and the total voting power, all
/// in effect from `current_epoch` on. The total must fit in a `u64`.
pub fn init_genesis_data<PK: View + Copy>(
    params: &PosParams,
    validators: &[GenesisValidator<PK>],
    current_epoch: Epoch,
) -> (r: GenesisData<PK>)
    requires
        total_power(validators@, *params) <= u64::MAX,
    ensures
        r.validators@.len() == validators@.len(),
        forall|i: int|
            0 <= i < validators@.len() ==> (#[trigger] r.validators@[i]).is_for(
                validators@[i],
                *params,
                current_epoch,
            ),
        r.validator_set.wf(),
        r.validator_set@ == Map::<int, ValidatorSetView>::empty().insert(
            current_epoch.0 as int,
            genesis_validator_set(validators@, *params),
        ),
        r.total_voting_power.wf(),
        r.total_voting_power@ == Map::<int, VotingPower>::empty().insert(
            current_epoch.0 as int,
            VotingPower(total_power(validators@, *params) as u64),
        ),
{
    let ghost all = validators@;
    let mut set = ValidatorSet::new();
    let mut total: u64 = 0;
    let mut records: Vec<GenesisValidatorData<PK>> = Vec::new();
    let mut i: usize = 0;
    while i < validators.len()
        invariant
            i <= validators.len(),
            validators@ == all,
            total_power(all, *params) <= u64::MAX,
            set.wf(),
            set@.active == accumulated(all.subrange(0, i as int), *params),
            set@.inactive == Seq::<WeightedValidator>::empty(),
            total == total_power(all.subrange(0, i as int), *params),
            records@.len() == i,
            forall|j: int|
                0 <= j < i ==> (#[trigger] records@[j]).is_for(all[j], *params, current_epoch),
        decreases validators.len() - i,
    {
        let validator = &validators[i];
        let voting_power = VotingPower::from_tokens(validator.tokens, params);
        proof {
            lemma_total_power_prefix(all, *params, i + 1);
            assert(all.subrange(0, i + 1).drop_last() =~= all.subrange(0, i as int));
            assert(all.subrange(0, i + 1).last() == all[i as int]);
        }
        total = total + voting_power.0;
        set.insert_active(WeightedValidator { voting_power, address: validator.address });
        records.push(genesis_validator_data(params, validator, current_epoch));
        i = i + 1;
    }
    proof {
        assert(all.subrange(0, all.len() as int) =~= all);
    }
    set.rebalance(params.max_active_validators);
    let validator_set = EpochedValue::init_at_genesis(set, current_epoch);
    let total_voting_power = EpochedValue::init_at_genesis(VotingPower(total), current_epoch);
    GenesisData { validators: records, validator_set, total_voting_power }
}

/// Whether the total voting power of the stakeholders fits in a `u64`, as
/// `init_genesis_data` needs it.
pub fn genesis_power_fits<PK>(params: &PosParams, validators: &[GenesisValidator<PK>]) -> (r:
    bool)
    ensures
        r == (total_power(validators@, *params) <= u64::MAX),
{
    let ghost all = validators@;
    let mut total: u64 = 0;
    let mut i: usize = 0;
    while i < validators.len()
        invariant
            i <= validators.len(),
            validators@ == all,
            total == total_power(all.subrange(0, i as int), *params),
        decreases validators.len() - i,
    {
        let voting_power = VotingPower::from_tokens(validators[i].tokens, params);
        proof {
            lemma_total_power_prefix(all, *params, i + 1);
            assert(all.subrange(0, i + 1).drop_last() =~= all.subrange(0, i as int));
            assert(all.subrange(0, i + 1).last() == all[i as int]);
        }
        if voting_power.0 > u64::MAX - total {
            return false;
        }
        total = total + voting_power.0;
        i = i + 1;
    }
    proof {
        assert(all.subrange(0, all.len() as int) =~= all);
    }
    true
}

} // verus!
