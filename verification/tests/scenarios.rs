use proof_of_stake::epoched::EpochedValue;
use proof_of_stake::epoched_delta::EpochedDelta;
use proof_of_stake::genesis::{genesis_power_fits, init_genesis_data};
use proof_of_stake::lifecycle::become_validator_data;
use proof_of_stake::types::{
    Address, DynEpochOffset, Epoch, GenesisValidator, PosParams, ValidatorState, VotingPower,
    WeightedValidator,
};
use proof_of_stake::validator_set::ValidatorSet;

fn stakeholder(address: u64, tokens: u64) -> GenesisValidator<u64> {
    GenesisValidator {
        address: Address(address),
        staking_reward_address: Address(address + 1000),
        tokens,
        consensus_key: address + 5000,
    }
}

fn member(power: u64, address: u64) -> WeightedValidator {
    WeightedValidator { voting_power: VotingPower(power), address: Address(address) }
}

#[test]
fn genesis_keeps_the_two_strongest_active() {
    let params = PosParams::new(2, 10, 2).unwrap();
    let validators = vec![stakeholder(1, 100), stakeholder(2, 50), stakeholder(3, 10)];
    assert!(genesis_power_fits(&params, &validators));
    let data = init_genesis_data(&params, &validators, Epoch(0));
    let set = data.validator_set.get(Epoch(0)).unwrap();
    assert_eq!(set.active(), &vec![member(50, 2), member(100, 1)]);
    assert_eq!(set.inactive(), &vec![member(10, 3)]);
    let total = data.total_voting_power.get(Epoch(0)).unwrap();
    assert_eq!(
        total.0,
        VotingPower::from_tokens(100, &params).0
            + VotingPower::from_tokens(50, &params).0
            + VotingPower::from_tokens(10, &params).0
    );
    assert_eq!(total.0, 160);
}

#[test]
fn new_validator_is_pending_then_candidate() {
    let params = PosParams::new(2, 10, 4).unwrap();
    let mut validator_set = EpochedValue::init_at_genesis(ValidatorSet::new(), Epoch(0));
    let key: u64 = 77;
    let data =
        become_validator_data(&params, &Address(9), &key, &mut validator_set, Epoch(5)).unwrap();
    assert_eq!(data.state.get(Epoch(4)), None);
    assert_eq!(data.state.get(Epoch(5)), Some(&ValidatorState::Pending));
    assert_eq!(data.state.get(Epoch(6)), Some(&ValidatorState::Pending));
    assert_eq!(data.state.get(Epoch(7)), Some(&ValidatorState::Candidate));
    assert_eq!(data.state.get(Epoch(100)), Some(&ValidatorState::Candidate));
    assert_eq!(data.consensus_key.get(Epoch(6)), None);
    assert_eq!(data.consensus_key.get(Epoch(7)), Some(&77));
    assert_eq!(data.consensus_key.get(Epoch(8)), Some(&77));
    assert!(validator_set.get(Epoch(6)).unwrap().inactive().is_empty());
    assert_eq!(validator_set.get(Epoch(7)).unwrap().inactive(), &vec![member(0, 9)]);
    assert!(validator_set.get(Epoch(7)).unwrap().active().is_empty());
}

#[test]
fn delta_totals_survive_folding() {
    let params = PosParams::new(1, 10, 4).unwrap();
    let mut deltas = EpochedDelta::init_at_genesis(5, Epoch(0));
    deltas.set(7, Epoch(2), &params);
    deltas.set(-3, Epoch(7), &params);
    assert_eq!(deltas.get(Epoch(0)), Some(5));
    assert_eq!(deltas.get(Epoch(3)), Some(12));
    assert_eq!(deltas.get(Epoch(8)), Some(9));
    assert_eq!(deltas.get(Epoch(20)), Some(9));
    deltas.set(100, Epoch(25), &params);
    assert_eq!(deltas.get(Epoch(1)), None);
    assert_eq!(deltas.get(Epoch(14)), None);
    assert_eq!(deltas.get(Epoch(15)), Some(9));
    assert_eq!(deltas.get(Epoch(16)), Some(9));
    assert_eq!(deltas.get(Epoch(25)), Some(9));
    assert_eq!(deltas.get(Epoch(26)), Some(109));
}

#[test]
fn update_from_offset_uses_the_chosen_window() {
    let params = PosParams::new(2, 6, 4).unwrap();
    let mut power = EpochedValue::init_at_genesis(VotingPower(10), Epoch(0));
    let done = power.update_from_offset(
        |p: &VotingPower| VotingPower(p.0 + 1),
        Epoch(3),
        DynEpochOffset::UnbondingLen,
        &params,
    );
    assert!(done);
    assert_eq!(power.get(Epoch(8)), Some(&VotingPower(10)));
    assert_eq!(power.get(Epoch(9)), Some(&VotingPower(11)));
    let done = power.update_from_offset(
        |p: &VotingPower| VotingPower(p.0 * 2),
        Epoch(3),
        DynEpochOffset::PipelineLen,
        &params,
    );
    assert!(done);
    assert_eq!(power.get(Epoch(4)), Some(&VotingPower(10)));
    assert_eq!(power.get(Epoch(5)), Some(&VotingPower(20)));
    assert_eq!(power.get(Epoch(9)), Some(&VotingPower(11)));
}
