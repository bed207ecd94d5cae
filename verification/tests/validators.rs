use proof_of_stake::bond::Bond;
use proof_of_stake::genesis::{genesis_power_fits, init_genesis_data};
use proof_of_stake::table::Table;
use proof_of_stake::types::{
    Address, BondId, DynEpochOffset, Epoch, EpochWindow, GenesisValidator, PosParams,
    ValidatorState, VotingPower, WeightedValidator,
};
use proof_of_stake::validator_set::ValidatorSet;

fn validator(power: u64, address: u64) -> WeightedValidator {
    WeightedValidator { voting_power: VotingPower(power), address: Address(address) }
}

fn genesis_validator(address: u64, tokens: u64) -> GenesisValidator<u64> {
    GenesisValidator {
        address: Address(address),
        staking_reward_address: Address(address + 100),
        tokens,
        consensus_key: address * 3,
    }
}

fn no_inversion(set: &ValidatorSet) -> bool {
    set.active()
        .iter()
        .all(|a| set.inactive().iter().all(|b| a.voting_power.0 >= b.voting_power.0))
}

#[test]
fn epochs_saturate() {
    assert_eq!(Epoch(5).saturating_add(2), Epoch(7));
    assert_eq!(Epoch(u64::MAX - 1).saturating_add(2), Epoch(u64::MAX));
    assert_eq!(Epoch(5).saturating_sub(2), Epoch(3));
    assert_eq!(Epoch(5).saturating_sub(5), Epoch(0));
    assert_eq!(Epoch(5).saturating_sub(6), Epoch(0));
    assert!(Epoch(1) < Epoch(2));
}

#[test]
fn windows_give_the_offsets() {
    let params = PosParams::new(2, 10, 3).unwrap();
    let window = EpochWindow::new(Epoch(25), &params);
    assert_eq!(window.start_epoch(), Epoch(15));
    assert_eq!(window.horizon_epoch(DynEpochOffset::PipelineLen), Epoch(27));
    assert_eq!(window.horizon_epoch(DynEpochOffset::UnbondingLen), Epoch(35));
    assert!(!window.contains(Epoch(14)));
    assert!(window.contains(Epoch(15)));
    assert!(window.contains(Epoch(26)));
    assert!(!window.contains(Epoch(27)));
    let early = EpochWindow::new(Epoch(4), &params);
    assert_eq!(early.start_epoch(), Epoch(0));
    assert!(early.contains(Epoch(0)));
    let last = EpochWindow::new(Epoch(u64::MAX), &params);
    assert_eq!(last.horizon_epoch(DynEpochOffset::PipelineLen), Epoch(u64::MAX));
    assert_eq!(last.start_epoch(), Epoch(u64::MAX - 10));
    assert!(!last.contains(Epoch(u64::MAX)));
}

#[test]
fn params_need_a_pipeline_inside_the_unbonding_window() {
    assert_eq!(PosParams::new(0, 10, 3), None);
    assert_eq!(PosParams::new(3, 2, 3), None);
    let params = PosParams::new(2, 2, 0).unwrap();
    assert!(params.is_valid());
    assert_eq!(params.pipeline_length, 2);
    assert_eq!(params.unbonding_length, 2);
    assert_eq!(params.max_active_validators, 0);
    let params = PosParams::new(2, 21, 7).unwrap();
    assert_eq!(DynEpochOffset::PipelineLen.value(&params), 2);
    assert_eq!(DynEpochOffset::UnbondingLen.value(&params), 21);
    let loose = PosParams { pipeline_length: 0, unbonding_length: 0, max_active_validators: 1 };
    assert!(!loose.is_valid());
}

#[test]
fn voting_power_follows_the_tokens() {
    let params = PosParams::new(2, 10, 3).unwrap();
    assert_eq!(VotingPower::from_tokens(0, &params), VotingPower(0));
    assert_eq!(VotingPower::from_tokens(12_345, &params), VotingPower(12_345));
    assert_eq!(VotingPower::from_tokens(u64::MAX, &params), VotingPower(u64::MAX));
    assert!(VotingPower::from_tokens(5, &params) < VotingPower::from_tokens(6, &params));
    assert_eq!(VotingPower::default(), VotingPower(0));
}

#[test]
fn the_two_orders_differ_on_power_and_agree_on_ties() {
    let weak = validator(1, 9);
    let strong = validator(2, 1);
    assert!(weak.is_before(&strong));
    assert!(!strong.is_before(&weak));
    assert!(strong.ranks_above(&weak));
    assert!(!weak.ranks_above(&strong));
    let low = validator(2, 1);
    let high = validator(2, 5);
    assert!(low.is_before(&high));
    assert!(low.ranks_above(&high));
    assert!(!low.is_before(&low));
    assert!(!low.ranks_above(&low));
}

#[test]
fn insert_fills_the_active_partition_first() {
    let mut set = ValidatorSet::new();
    set.insert(validator(10, 1), 2);
    set.insert(validator(30, 2), 2);
    assert_eq!(set.active(), &vec![validator(10, 1), validator(30, 2)]);
    assert!(set.inactive().is_empty());
    set.insert(validator(5, 3), 2);
    assert_eq!(set.active(), &vec![validator(10, 1), validator(30, 2)]);
    assert_eq!(set.inactive(), &vec![validator(5, 3)]);
    set.insert(validator(20, 4), 2);
    assert_eq!(set.active(), &vec![validator(20, 4), validator(30, 2)]);
    assert_eq!(set.inactive(), &vec![validator(5, 3), validator(10, 1)]);
    set.insert(validator(20, 5), 2);
    assert_eq!(set.active(), &vec![validator(20, 4), validator(30, 2)]);
    assert_eq!(set.inactive(), &vec![validator(5, 3), validator(10, 1), validator(20, 5)]);
    assert!(no_inversion(&set));
    assert_eq!(set.active_by_rank(), vec![validator(30, 2), validator(20, 4)]);
}

#[test]
fn insert_keeps_the_ranking_through_many_steps() {
    let powers: [u64; 12] = [7, 3, 9, 9, 1, 4, 12, 7, 0, 5, 9, 2];
    let mut set = ValidatorSet::new();
    for (i, power) in powers.iter().enumerate() {
        set.insert(validator(*power, i as u64), 4);
        assert!(set.active().len() <= 4);
        assert_eq!(set.active().len() + set.inactive().len(), i + 1);
        assert!(no_inversion(&set));
    }
    assert_eq!(
        set.active(),
        &vec![validator(9, 2), validator(9, 3), validator(9, 10), validator(12, 6)]
    );
    assert_eq!(
        set.active_by_rank(),
        vec![validator(12, 6), validator(9, 2), validator(9, 3), validator(9, 10)]
    );
}

#[test]
fn a_member_is_listed_once_in_its_partition() {
    let mut set = ValidatorSet::new();
    set.insert(validator(10, 1), 2);
    set.insert(validator(5, 2), 2);
    set.insert(validator(3, 3), 2);
    let before = set.duplicate();
    set.insert(validator(10, 1), 2);
    assert_eq!(set, before);
    set.insert_active(validator(5, 2));
    assert_eq!(set, before);
    set.insert_inactive(validator(3, 3));
    assert_eq!(set, before);
    set.insert(validator(3, 3), 2);
    assert_eq!(set, before);
}

#[test]
fn a_caller_keeps_each_address_in_one_partition() {
    let mut set = ValidatorSet::new();
    set.insert(validator(10, 1), 1);
    set.insert(validator(5, 2), 1);
    let before = set.duplicate();
    for address in 1..4 {
        if !set.has_address(&Address(address)) {
            set.insert(validator(7, address), 1);
        }
    }
    assert_eq!(set.active(), before.active());
    assert_eq!(set.inactive(), &vec![validator(5, 2), validator(7, 3)]);
}

#[test]
fn an_active_partition_without_room_takes_nobody() {
    let mut set = ValidatorSet::new();
    set.insert(validator(10, 1), 0);
    set.insert(validator(20, 2), 0);
    assert!(set.active().is_empty());
    assert_eq!(set.inactive(), &vec![validator(10, 1), validator(20, 2)]);
    assert!(set.active_by_rank().is_empty());
}

#[test]
fn rebalance_demotes_the_lower_address_among_equal_powers() {
    let mut set = ValidatorSet::new();
    set.insert_active(validator(5, 3));
    set.insert_active(validator(5, 1));
    set.insert_active(validator(5, 2));
    set.insert_active(validator(8, 0));
    set.rebalance(2);
    assert_eq!(set.active(), &vec![validator(5, 3), validator(8, 0)]);
    assert_eq!(set.inactive(), &vec![validator(5, 1), validator(5, 2)]);
    set.rebalance(2);
    assert_eq!(set.active().len(), 2);
    set.rebalance(0);
    assert!(set.active().is_empty());
    assert_eq!(
        set.inactive(),
        &vec![validator(5, 1), validator(5, 2), validator(5, 3), validator(8, 0)]
    );
}

#[test]
fn a_weak_newcomer_in_a_partition_with_room_can_invert_the_ranking() {
    let mut set = ValidatorSet::new();
    set.insert_active(validator(100, 1));
    set.insert_inactive(validator(50, 2));
    set.insert(validator(10, 3), 2);
    assert_eq!(set.active(), &vec![validator(10, 3), validator(100, 1)]);
    assert_eq!(set.inactive(), &vec![validator(50, 2)]);
    assert!(!no_inversion(&set));
}

#[test]
fn addresses_are_found_in_both_partitions() {
    let mut set = ValidatorSet::new();
    set.insert(validator(10, 1), 1);
    set.insert(validator(5, 2), 1);
    assert!(set.has_address(&Address(1)));
    assert!(set.has_address(&Address(2)));
    assert!(!set.has_address(&Address(3)));
    assert!(!ValidatorSet::new().has_address(&Address(1)));
}

#[test]
fn genesis_does_not_depend_on_the_order() {
    let params = PosParams::new(2, 10, 3).unwrap();
    let tokens: [u64; 6] = [40, 15, 40, 7, 99, 15];
    let base: Vec<GenesisValidator<u64>> =
        tokens.iter().enumerate().map(|(i, t)| genesis_validator(i as u64, *t)).collect();
    let expected = init_genesis_data(&params, &base, Epoch(1));
    let orders: [[usize; 6]; 4] =
        [[5, 4, 3, 2, 1, 0], [2, 0, 4, 1, 5, 3], [1, 2, 3, 4, 5, 0], [3, 5, 0, 4, 2, 1]];
    for order in orders.iter() {
        let permuted: Vec<GenesisValidator<u64>> =
            order.iter().map(|i| genesis_validator(*i as u64, tokens[*i])).collect();
        let data = init_genesis_data(&params, &permuted, Epoch(1));
        assert_eq!(data.validator_set, expected.validator_set);
        assert_eq!(data.total_voting_power, expected.total_voting_power);
    }
    let set = expected.validator_set.get(Epoch(1)).unwrap();
    assert_eq!(set.active(), &vec![validator(40, 0), validator(40, 2), validator(99, 4)]);
    assert_eq!(set.inactive(), &vec![validator(7, 3), validator(15, 1), validator(15, 5)]);
    assert_eq!(expected.total_voting_power.get(Epoch(1)), Some(&VotingPower(216)));
    let members: u64 =
        set.active().iter().chain(set.inactive().iter()).map(|w| w.voting_power.0).sum();
    assert_eq!(members, 216);
}

#[test]
fn genesis_records_each_stakeholder() {
    let params = PosParams::new(2, 10, 1).unwrap();
    let validators = vec![genesis_validator(1, 30), genesis_validator(2, 0)];
    let data = init_genesis_data(&params, &validators, Epoch(3));
    assert_eq!(data.validators.len(), 2);
    for (record, given) in data.validators.iter().zip(validators.iter()) {
        assert_eq!(record.address, given.address);
        assert_eq!(record.staking_reward_address, given.staking_reward_address);
        assert_eq!(record.consensus_key.get(Epoch(2)), None);
        assert_eq!(record.consensus_key.get(Epoch(3)), Some(&given.consensus_key));
        assert_eq!(record.state.get(Epoch(3)), Some(&ValidatorState::Candidate));
        assert_eq!(record.total_deltas.get(Epoch(3)), Some(given.tokens as i128));
        assert_eq!(record.voting_power.get(Epoch(3)), Some(&VotingPower(given.tokens)));
        assert_eq!(record.bond.0, BondId { source: given.address, validator: given.address });
        let bond = record.bond.1.get(Epoch(3)).unwrap();
        assert_eq!(bond.amount_at(Epoch(3)), Some(given.tokens));
    }
    let set = data.validator_set.get(Epoch(3)).unwrap();
    assert_eq!(set.active(), &vec![validator(30, 1)]);
    assert_eq!(set.inactive(), &vec![validator(0, 2)]);
}

#[test]
fn genesis_without_stakeholders_is_empty() {
    let params = PosParams::new(2, 10, 1).unwrap();
    let validators: Vec<GenesisValidator<u64>> = Vec::new();
    assert!(genesis_power_fits(&params, &validators));
    let data = init_genesis_data(&params, &validators, Epoch(0));
    assert!(data.validators.is_empty());
    let set = data.validator_set.get(Epoch(0)).unwrap();
    assert!(set.active().is_empty());
    assert!(set.inactive().is_empty());
    assert_eq!(data.total_voting_power.get(Epoch(0)), Some(&VotingPower(0)));
}

#[test]
fn genesis_power_must_fit() {
    let params = PosParams::new(2, 10, 1).unwrap();
    let fits = vec![genesis_validator(1, u64::MAX - 1), genesis_validator(2, 1)];
    assert!(genesis_power_fits(&params, &fits));
    let data = init_genesis_data(&params, &fits, Epoch(0));
    assert_eq!(data.total_voting_power.get(Epoch(0)), Some(&VotingPower(u64::MAX)));
    let overflows = vec![genesis_validator(1, u64::MAX - 1), genesis_validator(2, 2)];
    assert!(!genesis_power_fits(&params, &overflows));
}

#[test]
fn bonds_keep_amounts_by_epoch() {
    let bond = Bond::new(Epoch(4), 250);
    assert_eq!(bond.amount_at(Epoch(4)), Some(250));
    assert_eq!(bond.amount_at(Epoch(3)), None);
    assert_eq!(bond.amount_at(Epoch(5)), None);
    assert_eq!(bond.duplicate(), bond);
}

#[test]
fn tables_keep_the_last_value_of_each_key() {
    let mut table: Table<Address, u64> = Table::new();
    assert_eq!(table.get(&Address(1)), None);
    assert!(!table.contains_key(&Address(1)));
    table.put(Address(1), 10);
    table.put(Address(2), 20);
    table.put(Address(1), 11);
    assert_eq!(table.get(&Address(1)), Some(&11));
    assert_eq!(table.get(&Address(2)), Some(&20));
    assert_eq!(table.get(&Address(3)), None);
    assert!(table.contains_key(&Address(2)));
    let mut bonds: Table<BondId, u64> = Table::new();
    bonds.put(BondId { source: Address(1), validator: Address(2) }, 5);
    assert_eq!(bonds.get(&BondId { source: Address(1), validator: Address(2) }), Some(&5));
    assert_eq!(bonds.get(&BondId { source: Address(2), validator: Address(1) }), None);
}
