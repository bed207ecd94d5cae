//! The step by which an account becomes a validator.

use crate::epoched::{
    after_set, lemma_value_at_none, pruned, value_at, written, EpochedValue,
};
use crate::types::{
    Address, DynEpochOffset, Epoch, PosParams, ValidatorState, VotingPower, WeightedValidator,
};
use crate::validator_set::{lemma_with_member, ValidatorSet, ValidatorSetView};
use vstd::prelude::*;

verus! {

/// Why an account could not become a validator.
#[derive(Clone, Copy, Debug, PartialEq, Eq, Structural)]
pub enum BecomeValidatorError {
    /// The address has a validator state already.
    AlreadyValidator,
    /// No validator set is kept for the epoch at which the new validator
    /// would enter it.
    StaleQuery,
}

impl BecomeValidatorError {
    /// The error in words.
    pub fn message(&self) -> (r: &'static str)
        ensures
            r@ == match self {
                BecomeValidatorError::AlreadyValidator => "The given address is already a validator"@,
                BecomeValidatorError::StaleQuery => "The validator set is not kept for the epoch of the change"@,
            },
    {
        match self {
            BecomeValidatorError::AlreadyValidator => "The given address is already a validator",
            BecomeValidatorError::StaleQuery => "The validator set is not kept for the epoch of the change",
        }
    }
}

/// What is written for an account that becomes a validator.
#[derive(Debug, PartialEq, Eq)]
pub struct BecomeValidatorData<PK> {
    pub consensus_key: EpochedValue<PK>,
    pub state: EpochedValue<ValidatorState>,
}

/// Every validator set of the history has both partitions in order.
pub open spec fn sets_wf(h: Map<int, ValidatorSetView>) -> bool {
    forall|k: int| h.dom().contains(k) ==> (#[trigger] h[k]).wf()
}

/// A new validator as a member of the validator set: it has no voting power
/// until tokens are bonded to it.
pub open spec fn newcomer(address: Address) -> WeightedValidator {
    WeightedValidator { voting_power: VotingPower(0), address }
}

/// The state history of a new validator: `Pending` from `epoch`, and
/// `Candidate` from `pipeline_length` epochs later.
pub open spec fn newcomer_state(epoch: Epoch, params: PosParams) -> Map<int, ValidatorState> {
    Map::<int, ValidatorState>::empty().insert(epoch.0 as int, ValidatorState::Pending).insert(
        epoch.plus(params.pipeline_length),
        ValidatorState::Candidate,
    )
}

/// The validator set history after `address` was added to the inactive
/// partition of the set in effect `pipeline_length` epochs after `epoch`,
/// where `set` is that set.
pub open spec fn with_newcomer(
    h: Map<int, ValidatorSetView>,
    set: ValidatorSetView,
    address: Address,
    epoch: Epoch,
    params: PosParams,
) -> Map<int, ValidatorSetView> {
    written(
        h,
        epoch.minus(params.unbonding_length),
        epoch.plus(params.pipeline_length),
        set.with_inactive(newcomer(address)),
    )
}

/// Every validator set of the history is ranked for the capacity `max`.
pub open spec fn sets_ranked(h: Map<int, ValidatorSetView>, max: u64) -> bool {
    forall|k: int| h.dom().contains(k) ==> (#[trigger] h[k]).ranked(max)
}

/// A new validator leaves every validator set of the history in order and
/// ranked.
pub proof fn lemma_with_newcomer_ranked(
    h: Map<int, ValidatorSetView>,
    set: ValidatorSetView,
    address: Address,
    epoch: Epoch,
    params: PosParams,
    max: u64,
)
    requires
        sets_wf(h),
        sets_ranked(h, max),
        value_at(h, epoch.plus(params.pipeline_length)) == Some(set),
    ensures
        sets_wf(with_newcomer(h, set, address, epoch, params)),
        sets_ranked(with_newcomer(h, set, address, epoch, params), max),
{
    let horizon = epoch.plus(params.pipeline_length);
    let cutoff = epoch.minus(params.unbonding_length);
    let next = set.with_inactive(newcomer(address));
    lemma_value_at_none(h, horizon);
    let k = choose|k: int| crate::epoched::is_latest_at(h, horizon, k);
    crate::epoched::lemma_value_at_latest(h, horizon, k);
    assert(h[k].wf() && h[k].ranked(max));
    crate::validator_set::lemma_with_inactive_ranked(set, newcomer(address), max);
    crate::epoched::lemma_written_keeps(h, cutoff, horizon, next);
    let g = with_newcomer(h, set, address, epoch, params);
    assert forall|j: int| g.dom().contains(j) implies (#[trigger] g[j]).wf() && g[j].ranked(
        max,
    ) by {
        if g[j] != next {
            let i = choose|i: int| h.dom().contains(i) && h[i] == g[j];
            assert(h[i].wf() && h[i].ranked(max));
        }
    }
}

/// A new validator adds nothing to the sum of the voting power of all
/// members, and where its address is new each address stays with one member.
pub proof fn lemma_newcomer_keeps_total(set: ValidatorSetView, address: Address)
    requires
        set.wf(),
    ensures
        set.with_inactive(newcomer(address)).total_power() == set.total_power(),
        set.distinct_addresses() && !set.has_address(address) ==> set.with_inactive(
            newcomer(address),
        ).distinct_addresses(),
{
    let w = newcomer(address);
    let next = set.with_inactive(w);
    lemma_with_member(set.inactive, w);
    crate::validator_set::lemma_with_member_power(set.inactive, w);
    if set.distinct_addresses() && !set.has_address(address) {
        assert(!set.has_member(w));
        assert forall|a: WeightedValidator, b: WeightedValidator|
            next.has_member(a) && next.has_member(b) && a.address == b.address implies a == b by {
            if a != w {
                assert(set.has_member(a));
            }
            if b != w {
                assert(set.has_member(b));
            }
        }
        assert forall|a: WeightedValidator| !(next.active.contains(a) && next.inactive.contains(
            a,
        )) by {
            if next.active.contains(a) && next.inactive.contains(a) {
                if a != w {
                    assert(set.active.contains(a) && set.inactive.contains(a));
                } else {
                    assert(set.has_member(a));
                }
            }
        }
    }
}

/// A history with one entry loses nothing when a value is set at the epoch of
/// that entry.
pub proof fn lemma_set_on_fresh_history<V>(v0: V, v: V, epoch: Epoch, params: PosParams)
    ensures
        after_set(Map::<int, V>::empty().insert(epoch.0 as int, v0), v, epoch, params) == Map::<
            int,
            V,
        >::empty().insert(epoch.0 as int, v0).insert(epoch.plus(params.pipeline_length), v),
{
    let h = Map::<int, V>::empty().insert(epoch.0 as int, v0);
    let cutoff = epoch.minus(params.unbonding_length);
    lemma_value_at_none(h, cutoff);
    if cutoff == epoch.0 {
        assert(crate::epoched::is_latest_at(h, cutoff, epoch.0 as int));
        crate::epoched::lemma_value_at_latest(h, cutoff, epoch.0 as int);
        assert(pruned(h, cutoff) =~= h);
    } else {
        assert(crate::epoched::expired_at(h, cutoff));
    }
}

/// The records of a new validator. Its key takes effect `pipeline_length`
/// epochs after `current_epoch`. Its state is `Pending` from `current_epoch`
/// and `Candidate` from then on. The validator set in effect then gets the
/// address in its inactive partition, with no voting power. Where no
/// validator set is in effect then, nothing changes and the result is `None`.
pub fn become_validator_data<PK: View + Copy>(
    params: &PosParams,
    address: &Address,
    consensus_key: &PK,
    validator_set: &mut EpochedValue<ValidatorSet>,
    current_epoch: Epoch,
) -> (r: Option<BecomeValidatorData<PK>>)
    requires
        old(validator_set).wf(),
        sets_wf(old(validator_set)@),
    ensures
        final(validator_set).wf(),
        sets_wf(final(validator_set)@),
        match value_at(old(validator_set)@, current_epoch.plus(params.pipeline_length)) {
            None => r is None && final(validator_set)@ == old(validator_set)@,
            Some(set) => {
                &&& r is Some
                &&& r->0.consensus_key.wf()
                &&& r->0.consensus_key@ == Map::<int, PK::V>::empty().insert(
                    current_epoch.plus(params.pipeline_length),
                    consensus_key@,
                )
                &&& r->0.state.wf()
                &&& r->0.state@ == newcomer_state(current_epoch, *params)
                &&& final(validator_set)@ == with_newcomer(
                    old(validator_set)@,
                    set,
                    *address,
                    current_epoch,
                    *params,
                )
            },
        },
{
    let ghost h = validator_set@;
    let ghost horizon = current_epoch.plus(params.pipeline_length);
    let w = WeightedValidator { voting_power: VotingPower(0), address: *address };
    proof {
        lemma_value_at_none(h, horizon);
        if value_at(h, horizon) is Some {
            let k = choose|k: int| crate::epoched::is_latest_at(h, horizon, k);
            crate::epoched::lemma_value_at_latest(h, horizon, k);
            assert(h[k].wf());
        }
    }
    let add = |set: &ValidatorSet| -> (r: ValidatorSet)
        requires
            set.wf(),
        ensures
            r.wf(),
            r@ == set@.with_inactive(w),
        {
            let mut next = set.duplicate();
            next.insert_inactive(w);
            next
        };
    let updated = validator_set.update_from_offset(
        add,
        current_epoch,
        DynEpochOffset::PipelineLen,
        params,
    );
    if !updated {
        return None;
    }
    proof {
        let set = value_at(h, horizon)->0;
        lemma_with_member(set.inactive, w);
        assert(validator_set@ == with_newcomer(h, set, *address, current_epoch, *params));
        crate::epoched::lemma_written_keeps(
            h,
            current_epoch.minus(params.unbonding_length),
            horizon,
            set.with_inactive(w),
        );
    }
    let key = EpochedValue::init(*consensus_key, current_epoch, params);
    let mut state = EpochedValue::init_at_genesis(ValidatorState::Pending, current_epoch);
    state.set(ValidatorState::Candidate, current_epoch, params);
    proof {
        lemma_set_on_fresh_history(
            ValidatorState::Pending,
            ValidatorState::Candidate,
            current_epoch,
            *params,
        );
    }
    Some(BecomeValidatorData { consensus_key: key, state })
}

} // verus!
