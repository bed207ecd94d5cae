//! A store that keeps the records in memory.

use crate::bond::Bond;
use crate::epoched::EpochedValue;
use crate::epoched_delta::EpochedDelta;
use crate::lifecycle::sets_wf;
use crate::storage::{from_epoch, Pos, PosRecords};
use crate::table::Table;
use crate::types::{Address, BondId, Epoch, PosParams, ValidatorState, VotingPower};
use crate::validator_set::{ValidatorSet, ValidatorSetView};
use vstd::prelude::*;

verus! {

/// The histories of a table, each as what it stands for.
pub open spec fn histories<K, T: View>(table: Map<K, EpochedValue<T>>) -> Map<K, Map<int, T::V>> {
    table.map_values(|h: EpochedValue<T>| h@)
}

/// Every history of a table is in order.
pub open spec fn histories_wf<K, T: View>(table: Map<K, EpochedValue<T>>) -> bool {
    forall|k: K| table.dom().contains(k) ==> (#[trigger] table[k]).wf()
}

/// The delta histories of a table, each as what it stands for.
pub open spec fn delta_histories<K>(table: Map<K, EpochedDelta>) -> Map<K, Map<int, int>> {
    table.map_values(|h: EpochedDelta| h@)
}

/// Every delta history of a table is in order.
pub open spec fn delta_histories_wf<K>(table: Map<K, EpochedDelta>) -> bool {
    forall|k: K| table.dom().contains(k) ==> (#[trigger] table[k]).wf()
}

proof fn lemma_histories_insert<K, T: View>(
    table: Map<K, EpochedValue<T>>,
    key: K,
    value: EpochedValue<T>,
)
    ensures
        histories(table.insert(key, value)) == histories(table).insert(key, value@),
{
    assert(histories(table.insert(key, value)) =~= histories(table).insert(key, value@));
}

proof fn lemma_delta_histories_insert<K>(table: Map<K, EpochedDelta>, key: K, value: EpochedDelta)
    ensures
        delta_histories(table.insert(key, value)) == delta_histories(table).insert(key, value@),
{
    assert(delta_histories(table.insert(key, value)) =~= delta_histories(table).insert(
        key,
        value@,
    ));
}

fn duplicate_bonds(history: &EpochedValue<Bond>) -> (r: EpochedValue<Bond>)
    requires
        history.wf(),
    ensures
        r.wf(),
        r@ == history@,
{
    let copy = |x: &Bond| -> (y: Bond)
        ensures
            y@ == x@,
        {
            let y = x.duplicate();
            y
        };
    history.duplicate_with(copy)
}

fn duplicate_sets(history: &EpochedValue<ValidatorSet>) -> (r: EpochedValue<ValidatorSet>)
    requires
        history.wf(),
    ensures
        r.wf(),
        r@ == history@,
{
    let copy = |x: &ValidatorSet| -> (y: ValidatorSet)
        ensures
            y@ == x@,
        {
            let y = x.duplicate();
            y
        };
    history.duplicate_with(copy)
}

/// A store in memory. It starts with an empty validator set and no voting
/// power, both from epoch zero on.
#[derive(Debug)]
pub struct MemoryPos<PK> {
    params: PosParams,
    staking_reward_address: Table<Address, Address>,
    consensus_key: Table<Address, EpochedValue<PK>>,
    state: Table<Address, EpochedValue<ValidatorState>>,
    total_deltas: Table<Address, EpochedDelta>,
    voting_power: Table<Address, EpochedValue<VotingPower>>,
    bond: Table<BondId, EpochedValue<Bond>>,
    validator_set: EpochedValue<ValidatorSet>,
    total_voting_power: EpochedValue<VotingPower>,
    transfers: Vec<(Address, Address, Address)>,
}

impl<PK: View + Copy> MemoryPos<PK> {
    /// A store with the parameters `params` and no validators.
    pub fn new(params: PosParams) -> (r: Self)
        ensures
            r.valid(),
            r.records() == (PosRecords::<PK::V> {
                params,
                staking_reward_address: Map::empty(),
                consensus_key: Map::empty(),
                state: Map::empty(),
                total_deltas: Map::empty(),
                voting_power: Map::empty(),
                bond: Map::empty(),
                validator_set: from_epoch(
                    Epoch(0),
                    ValidatorSetView { active: Seq::empty(), inactive: Seq::empty() },
                ),
                total_voting_power: from_epoch(Epoch(0), VotingPower(0)),
            }),
            r.asked() == Seq::<(Address, Address, Address)>::empty(),
    {
        let set = ValidatorSet::new();
        proof {
            assert(set@.active =~= Seq::empty());
            assert(set@.inactive =~= Seq::empty());
        }
        let r: MemoryPos<PK> = MemoryPos {
            params,
            staking_reward_address: Table::new(),
            consensus_key: Table::new(),
            state: Table::new(),
            total_deltas: Table::new(),
            voting_power: Table::new(),
            bond: Table::new(),
            validator_set: EpochedValue::init_at_genesis(set, Epoch(0)),
            total_voting_power: EpochedValue::init_at_genesis(VotingPower(0), Epoch(0)),
            transfers: Vec::new(),
        };
        proof {
            assert(histories(r.consensus_key@) =~= Map::empty());
            assert(histories(r.state@) =~= Map::empty());
            assert(delta_histories(r.total_deltas@) =~= Map::empty());
            assert(histories(r.voting_power@) =~= Map::empty());
            assert(histories(r.bond@) =~= Map::empty());
        }
        r
    }

    /// The transfers that were asked for, each as the token, the source and
    /// the target, oldest first.
    pub closed spec fn asked(&self) -> Seq<(Address, Address, Address)> {
        self.transfers@
    }

    /// The transfers that were asked for, each as the token, the source and
    /// the target, oldest first.
    pub fn transfers(&self) -> (r: &Vec<(Address, Address, Address)>)
        ensures
            r@ == self.asked(),
    {
        &self.transfers
    }
}

impl<PK: View + Copy> Pos for MemoryPos<PK> {
    type PublicKey = PK;

    const POS_ADDRESS: u64 = 0;

    closed spec fn records(&self) -> PosRecords<PK::V> {
        PosRecords {
            params: self.params,
            staking_reward_address: self.staking_reward_address@,
            consensus_key: histories(self.consensus_key@),
            state: histories(self.state@),
            total_deltas: delta_histories(self.total_deltas@),
            voting_power: histories(self.voting_power@),
            bond: histories(self.bond@),
            validator_set: self.validator_set@,
            total_voting_power: self.total_voting_power@,
        }
    }

    closed spec fn valid(&self) -> bool {
        &&& histories_wf(self.consensus_key@)
        &&& histories_wf(self.state@)
        &&& delta_histories_wf(self.total_deltas@)
        &&& histories_wf(self.voting_power@)
        &&& histories_wf(self.bond@)
        &&& self.validator_set.wf()
        &&& sets_wf(self.validator_set@)
        &&& self.total_voting_power.wf()
    }

    fn write_params(&mut self, params: &PosParams) {
        self.params = *params;
    }

    fn write_validator_staking_reward_address(&mut self, key: &Address, value: Address) {
        self.staking_reward_address.put(*key, value);
    }

    fn write_validator_consensus_key(&mut self, key: &Address, value: EpochedValue<PK>) {
        proof {
            lemma_histories_insert(self.consensus_key@, *key, value);
        }
        self.consensus_key.put(*key, value);
    }

    fn write_validator_state(&mut self, key: &Address, value: EpochedValue<ValidatorState>) {
        proof {
            lemma_histories_insert(self.state@, *key, value);
        }
        self.state.put(*key, value);
    }

    fn write_validator_total_deltas(&mut self, key: &Address, value: EpochedDelta) {
        proof {
            lemma_delta_histories_insert(self.total_deltas@, *key, value);
        }
        self.total_deltas.put(*key, value);
    }

    fn write_validator_voting_power(&mut self, key: &Address, value: EpochedValue<VotingPower>) {
        proof {
            lemma_histories_insert(self.voting_power@, *key, value);
        }
        self.voting_power.put(*key, value);
    }

    fn write_bond(&mut self, key: &BondId, value: EpochedValue<Bond>) {
        proof {
            lemma_histories_insert(self.bond@, *key, value);
        }
        self.bond.put(*key, value);
    }

    fn write_validator_set(&mut self, value: EpochedValue<ValidatorSet>) {
        self.validator_set = value;
    }

    fn write_total_voting_power(&mut self, value: EpochedValue<VotingPower>) {
        self.total_voting_power = value;
    }

    fn read_params(&self) -> (r: PosParams) {
        self.params
    }

    fn read_validator_staking_reward_address(&self, key: &Address) -> (r: Option<Address>) {
        match self.staking_reward_address.get(key) {
            Some(address) => Some(*address),
            None => None,
        }
    }

    fn read_validator_consensus_key(&self, key: &Address) -> (r: Option<EpochedValue<PK>>) {
        match self.consensus_key.get(key) {
            Some(history) => Some(history.duplicate()),
            None => None,
        }
    }

    fn read_validator_state(&self, key: &Address) -> (r: Option<EpochedValue<ValidatorState>>) {
        match self.state.get(key) {
            Some(history) => Some(history.duplicate()),
            None => None,
        }
    }

    fn read_validator_total_deltas(&self, key: &Address) -> (r: Option<EpochedDelta>) {
        match self.total_deltas.get(key) {
            Some(history) => Some(history.duplicate()),
            None => None,
        }
    }

    fn read_validator_voting_power(&self, key: &Address) -> (r: Option<
        EpochedValue<VotingPower>,
    >) {
        match self.voting_power.get(key) {
            Some(history) => Some(history.duplicate()),
            None => None,
        }
    }

    fn read_bond(&mut self, key: &BondId) -> (r: Option<EpochedValue<Bond>>) {
        match self.bond.get(key) {
            Some(history) => Some(duplicate_bonds(history)),
            None => None,
        }
    }

    fn read_validator_set(&mut self) -> (r: EpochedValue<ValidatorSet>) {
        duplicate_sets(&self.validator_set)
    }

    fn read_total_voting_power(&mut self) -> (r: EpochedValue<VotingPower>) {
        self.total_voting_power.duplicate()
    }

    fn transfer(&mut self, token: &Address, source: &Address, target: &Address)
        ensures
            final(self).asked() == old(self).asked().push((*token, *source, *target)),
    {
        self.transfers.push((*token, *source, *target));
    }
}

} // verus!
