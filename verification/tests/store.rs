use proof_of_stake::bond::Bond;
use proof_of_stake::epoched::EpochedValue;
use proof_of_stake::epoched_delta::EpochedDelta;
use proof_of_stake::genesis::genesis_power_fits;
use proof_of_stake::memory::MemoryPos;
use proof_of_stake::types::{
    Address, BondId, Epoch, GenesisValidator, PosParams, ValidatorState, VotingPower,
    WeightedValidator,
};
use proof_of_stake::validator_set::ValidatorSet;
use proof_of_stake::{BecomeValidatorError, Pos};

fn params() -> PosParams {
    PosParams::new(2, 10, 2).unwrap()
}

fn newcomer(address: u64) -> WeightedValidator {
    WeightedValidator { voting_power: VotingPower(0), address: Address(address) }
}

#[test]
fn a_new_store_has_no_validators() {
    let mut store: MemoryPos<u64> = MemoryPos::new(params());
    assert_eq!(store.read_params(), params());
    assert!(!store.is_validator(&Address(1)));
    assert_eq!(store.read_validator_staking_reward_address(&Address(1)), None);
    assert_eq!(store.read_validator_consensus_key(&Address(1)), None);
    assert_eq!(store.read_validator_total_deltas(&Address(1)), None);
    assert_eq!(store.read_validator_voting_power(&Address(1)), None);
    assert_eq!(store.read_bond(&BondId { source: Address(1), validator: Address(1) }), None);
    let set = store.read_validator_set();
    assert!(set.get(Epoch(0)).unwrap().active().is_empty());
    assert!(set.get(Epoch(0)).unwrap().inactive().is_empty());
    assert_eq!(store.read_total_voting_power().get(Epoch(0)), Some(&VotingPower(0)));
    assert_eq!(<MemoryPos<u64> as Pos>::POS_ADDRESS, 0);
}

#[test]
fn become_validator_writes_the_delayed_records() {
    let mut store: MemoryPos<u64> = MemoryPos::new(params());
    let result = store.become_validator(&Address(9), &Address(19), &77, Epoch(5));
    assert_eq!(result, Ok(()));
    assert!(store.is_validator(&Address(9)));
    assert_eq!(store.read_validator_staking_reward_address(&Address(9)), Some(Address(19)));
    let state = store.read_validator_state(&Address(9)).unwrap();
    assert_eq!(state.get(Epoch(4)), None);
    assert_eq!(state.get(Epoch(5)), Some(&ValidatorState::Pending));
    assert_eq!(state.get(Epoch(6)), Some(&ValidatorState::Pending));
    assert_eq!(state.get(Epoch(7)), Some(&ValidatorState::Candidate));
    assert_eq!(state.get(Epoch(8)), Some(&ValidatorState::Candidate));
    let key = store.read_validator_consensus_key(&Address(9)).unwrap();
    assert_eq!(key.get(Epoch(5)), None);
    assert_eq!(key.get(Epoch(6)), None);
    assert_eq!(key.get(Epoch(7)), Some(&77));
    assert_eq!(key.get(Epoch(70)), Some(&77));
    let set = store.read_validator_set();
    assert!(set.get(Epoch(5)).unwrap().inactive().is_empty());
    assert!(set.get(Epoch(6)).unwrap().inactive().is_empty());
    assert_eq!(set.get(Epoch(7)).unwrap().inactive(), &vec![newcomer(9)]);
    assert!(set.get(Epoch(7)).unwrap().active().is_empty());
    assert_eq!(store.read_validator_total_deltas(&Address(9)), None);
    assert_eq!(store.read_validator_voting_power(&Address(9)), None);
    assert!(store.transfers().is_empty());
}

#[test]
fn become_validator_twice_is_refused_and_changes_nothing() {
    let mut store: MemoryPos<u64> = MemoryPos::new(params());
    assert_eq!(store.become_validator(&Address(9), &Address(19), &77, Epoch(5)), Ok(()));
    let state = store.read_validator_state(&Address(9));
    let key = store.read_validator_consensus_key(&Address(9));
    let reward = store.read_validator_staking_reward_address(&Address(9));
    let set = store.read_validator_set();
    let total = store.read_total_voting_power();
    let second = store.become_validator(&Address(9), &Address(29), &88, Epoch(6));
    assert_eq!(second, Err(BecomeValidatorError::AlreadyValidator));
    assert_eq!(store.read_validator_state(&Address(9)), state);
    assert_eq!(store.read_validator_consensus_key(&Address(9)), key);
    assert_eq!(store.read_validator_staking_reward_address(&Address(9)), reward);
    assert_eq!(store.read_validator_set(), set);
    assert_eq!(store.read_total_voting_power(), total);
}

#[test]
fn become_validator_before_the_first_validator_set_is_stale() {
    let mut store: MemoryPos<u64> = MemoryPos::new(params());
    store.write_validator_set(EpochedValue::init_at_genesis(ValidatorSet::new(), Epoch(10)));
    let before = store.read_validator_set();
    let result = store.become_validator(&Address(9), &Address(19), &77, Epoch(3));
    assert_eq!(result, Err(BecomeValidatorError::StaleQuery));
    assert!(!store.is_validator(&Address(9)));
    assert_eq!(store.read_validator_staking_reward_address(&Address(9)), None);
    assert_eq!(store.read_validator_consensus_key(&Address(9)), None);
    assert_eq!(store.read_validator_set(), before);
    assert_eq!(store.become_validator(&Address(9), &Address(19), &77, Epoch(8)), Ok(()));
}

#[test]
fn error_messages() {
    assert_eq!(
        BecomeValidatorError::AlreadyValidator.message(),
        "The given address is already a validator"
    );
    assert_eq!(
        BecomeValidatorError::StaleQuery.message(),
        "The validator set is not kept for the epoch of the change"
    );
}

#[test]
fn init_genesis_writes_every_record() {
    let params = PosParams::new(2, 10, 2).unwrap();
    let validators = vec![
        GenesisValidator {
            address: Address(1),
            staking_reward_address: Address(11),
            tokens: 100,
            consensus_key: 501u64,
        },
        GenesisValidator {
            address: Address(2),
            staking_reward_address: Address(12),
            tokens: 50,
            consensus_key: 502,
        },
        GenesisValidator {
            address: Address(3),
            staking_reward_address: Address(13),
            tokens: 10,
            consensus_key: 503,
        },
    ];
    assert!(genesis_power_fits(&params, &validators));
    let mut store: MemoryPos<u64> = MemoryPos::new(PosParams::new(1, 1, 1).unwrap());
    store.init_genesis(&params, &validators, Epoch(4));
    assert_eq!(store.read_params(), params);
    for v in validators.iter() {
        assert!(store.is_validator(&v.address));
        assert_eq!(
            store.read_validator_staking_reward_address(&v.address),
            Some(v.staking_reward_address)
        );
        let key = store.read_validator_consensus_key(&v.address).unwrap();
        assert_eq!(key.get(Epoch(3)), None);
        assert_eq!(key.get(Epoch(4)), Some(&v.consensus_key));
        let state = store.read_validator_state(&v.address).unwrap();
        assert_eq!(state.get(Epoch(4)), Some(&ValidatorState::Candidate));
        let deltas = store.read_validator_total_deltas(&v.address).unwrap();
        assert_eq!(deltas.get(Epoch(3)), None);
        assert_eq!(deltas.get(Epoch(4)), Some(v.tokens as i128));
        let power = store.read_validator_voting_power(&v.address).unwrap();
        assert_eq!(power.get(Epoch(4)), Some(&VotingPower(v.tokens)));
        let bond = store
            .read_bond(&BondId { source: v.address, validator: v.address })
            .unwrap();
        assert_eq!(bond.get(Epoch(4)).unwrap().amount_at(Epoch(4)), Some(v.tokens));
        assert_eq!(bond.get(Epoch(4)).unwrap().amount_at(Epoch(5)), None);
    }
    let set = store.read_validator_set();
    assert_eq!(set.get(Epoch(3)), None);
    let at_genesis = set.get(Epoch(4)).unwrap();
    assert_eq!(
        at_genesis.active(),
        &vec![
            WeightedValidator { voting_power: VotingPower(50), address: Address(2) },
            WeightedValidator { voting_power: VotingPower(100), address: Address(1) },
        ]
    );
    assert_eq!(
        at_genesis.inactive(),
        &vec![WeightedValidator { voting_power: VotingPower(10), address: Address(3) }]
    );
    assert_eq!(store.read_total_voting_power().get(Epoch(4)), Some(&VotingPower(160)));
}

/// A store that counts what is written to it and keeps it in a `MemoryPos`.
struct CountingStore {
    inner: MemoryPos<u64>,
    writes: usize,
}

impl Pos for CountingStore {
    type PublicKey = u64;

    const POS_ADDRESS: u64 = 42;

    fn write_params(&mut self, params: &PosParams) {
        self.writes += 1;
        self.inner.write_params(params)
    }

    fn write_validator_staking_reward_address(&mut self, key: &Address, value: Address) {
        self.writes += 1;
        self.inner.write_validator_staking_reward_address(key, value)
    }

    fn write_validator_consensus_key(&mut self, key: &Address, value: EpochedValue<u64>) {
        self.writes += 1;
        self.inner.write_validator_consensus_key(key, value)
    }

    fn write_validator_state(&mut self, key: &Address, value: EpochedValue<ValidatorState>) {
        self.writes += 1;
        self.inner.write_validator_state(key, value)
    }

    fn write_validator_total_deltas(&mut self, key: &Address, value: EpochedDelta) {
        self.writes += 1;
        self.inner.write_validator_total_deltas(key, value)
    }

    fn write_validator_voting_power(&mut self, key: &Address, value: EpochedValue<VotingPower>) {
        self.writes += 1;
        self.inner.write_validator_voting_power(key, value)
    }

    fn write_bond(&mut self, key: &BondId, value: EpochedValue<Bond>) {
        self.writes += 1;
        self.inner.write_bond(key, value)
    }

    fn write_validator_set(&mut self, value: EpochedValue<ValidatorSet>) {
        self.writes += 1;
        self.inner.write_validator_set(value)
    }

    fn write_total_voting_power(&mut self, value: EpochedValue<VotingPower>) {
        self.writes += 1;
        self.inner.write_total_voting_power(value)
    }

    fn read_params(&self) -> PosParams {
        self.inner.read_params()
    }

    fn read_validator_staking_reward_address(&self, key: &Address) -> Option<Address> {
        self.inner.read_validator_staking_reward_address(key)
    }

    fn read_validator_consensus_key(&self, key: &Address) -> Option<EpochedValue<u64>> {
        self.inner.read_validator_consensus_key(key)
    }

    fn read_validator_state(&self, key: &Address) -> Option<EpochedValue<ValidatorState>> {
        self.inner.read_validator_state(key)
    }

    fn read_validator_total_deltas(&self, key: &Address) -> Option<EpochedDelta> {
        self.inner.read_validator_total_deltas(key)
    }

    fn read_validator_voting_power(&self, key: &Address) -> Option<EpochedValue<VotingPower>> {
        self.inner.read_validator_voting_power(key)
    }

    fn read_bond(&mut self, key: &BondId) -> Option<EpochedValue<Bond>> {
        self.inner.read_bond(key)
    }

    fn read_validator_set(&mut self) -> EpochedValue<ValidatorSet> {
        self.inner.read_validator_set()
    }

    fn read_total_voting_power(&mut self) -> EpochedValue<VotingPower> {
        self.inner.read_total_voting_power()
    }

    fn transfer(&mut self, token: &Address, source: &Address, target: &Address) {
        self.inner.transfer(token, source, target)
    }
}

#[test]
fn a_refused_request_writes_nothing() {
    let mut store = CountingStore { inner: MemoryPos::new(params()), writes: 0 };
    assert_eq!(store.become_validator(&Address(9), &Address(19), &77, Epoch(5)), Ok(()));
    assert_eq!(store.writes, 4);
    assert_eq!(
        store.become_validator(&Address(9), &Address(19), &77, Epoch(5)),
        Err(BecomeValidatorError::AlreadyValidator)
    );
    assert_eq!(store.writes, 4);
    store.write_validator_set(EpochedValue::init_at_genesis(ValidatorSet::new(), Epoch(50)));
    assert_eq!(
        store.become_validator(&Address(10), &Address(19), &77, Epoch(5)),
        Err(BecomeValidatorError::StaleQuery)
    );
    assert_eq!(store.writes, 5);
    assert_eq!(<CountingStore as Pos>::POS_ADDRESS, 42);
}

#[test]
fn init_genesis_writes_each_record_once() {
    let params = params();
    let validators = vec![
        GenesisValidator {
            address: Address(1),
            staking_reward_address: Address(11),
            tokens: 100,
            consensus_key: 501u64,
        },
        GenesisValidator {
            address: Address(2),
            staking_reward_address: Address(12),
            tokens: 50,
            consensus_key: 502,
        },
    ];
    let mut store = CountingStore { inner: MemoryPos::new(params), writes: 0 };
    store.init_genesis(&params, &validators, Epoch(0));
    assert_eq!(store.writes, 1 + 2 * 6 + 2);
}

#[test]
fn the_later_of_two_records_for_one_address_is_kept() {
    let params = params();
    let validators = vec![
        GenesisValidator {
            address: Address(1),
            staking_reward_address: Address(11),
            tokens: 100,
            consensus_key: 501u64,
        },
        GenesisValidator {
            address: Address(1),
            staking_reward_address: Address(12),
            tokens: 50,
            consensus_key: 502,
        },
    ];
    let mut store: MemoryPos<u64> = MemoryPos::new(params);
    store.init_genesis(&params, &validators, Epoch(0));
    assert_eq!(store.read_validator_staking_reward_address(&Address(1)), Some(Address(12)));
    let key = store.read_validator_consensus_key(&Address(1)).unwrap();
    assert_eq!(key.get(Epoch(0)), Some(&502));
    assert_eq!(store.read_total_voting_power().get(Epoch(0)), Some(&VotingPower(150)));
}

#[test]
fn transfers_are_kept_in_order() {
    let mut store: MemoryPos<u64> = MemoryPos::new(params());
    store.transfer(&Address(1), &Address(2), &Address(3));
    store.transfer(&Address(1), &Address(3), &Address(2));
    assert_eq!(
        store.transfers(),
        &vec![(Address(1), Address(2), Address(3)), (Address(1), Address(3), Address(2))]
    );
}
