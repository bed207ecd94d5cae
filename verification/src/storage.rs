//! The store that keeps the records, and the two operations that write to
//! it: the first block, and an account that becomes a validator.

use crate::bond::Bond;
use crate::epoched::{value_at, EpochedValue};
use crate::epoched_delta::EpochedDelta;
use crate::genesis::{
    genesis_validator_set, init_genesis_data, lemma_genesis_validator_set_ranked, total_power,
    weighted,
};
use crate::lifecycle::{
    become_validator_data, lemma_with_newcomer_ranked, newcomer_state, sets_ranked, sets_wf,
    with_newcomer, BecomeValidatorError,
};
use crate::types::{
    Address, BondId, Epoch, GenesisValidator, PosParams, ValidatorState, VotingPower,
};
use crate::validator_set::{ValidatorSet, ValidatorSetView};
use vstd::prelude::*;

verus! {

/// What a store holds, each record as the history that it stands for. `K` is
/// what a public key looks like in contracts.
pub struct PosRecords<K> {
    pub params: PosParams,
    pub staking_reward_address: Map<Address, Address>,
    pub consensus_key: Map<Address, Map<int, K>>,
    pub state: Map<Address, Map<int, ValidatorState>>,
    pub total_deltas: Map<Address, Map<int, int>>,
    pub voting_power: Map<Address, Map<int, VotingPower>>,
    pub bond: Map<BondId, Map<int, Map<int, u64>>>,
    pub validator_set: Map<int, ValidatorSetView>,
    pub total_voting_power: Map<int, VotingPower>,
}

/// A history with the single entry `v` at `epoch`.
pub open spec fn from_epoch<V>(epoch: Epoch, v: V) -> Map<int, V> {
    Map::<int, V>::empty().insert(epoch.0 as int, v)
}

impl<K> PosRecords<K> {
    /// The records with those of one stakeholder of the first block.
    pub open spec fn with_genesis_validator<PK: View<V = K>>(
        self,
        v: GenesisValidator<PK>,
        params: PosParams,
        epoch: Epoch,
    ) -> PosRecords<K> {
        PosRecords {
            staking_reward_address: self.staking_reward_address.insert(
                v.address,
                v.staking_reward_address,
            ),
            consensus_key: self.consensus_key.insert(v.address, from_epoch(epoch, v.consensus_key@)),
            state: self.state.insert(v.address, from_epoch(epoch, ValidatorState::Candidate)),
            total_deltas: self.total_deltas.insert(v.address, from_epoch(epoch, v.tokens as int)),
            voting_power: self.voting_power.insert(
                v.address,
                from_epoch(epoch, weighted(v, params).voting_power),
            ),
            bond: self.bond.insert(
                BondId { source: v.address, validator: v.address },
                from_epoch(epoch, from_epoch(epoch, v.tokens)),
            ),
            ..self
        }
    }

    /// The records with those of each stakeholder, written in the order of
    /// the list.
    pub open spec fn with_genesis_validators<PK: View<V = K>>(
        self,
        validators: Seq<GenesisValidator<PK>>,
        params: PosParams,
        epoch: Epoch,
    ) -> PosRecords<K>
        decreases validators.len(),
    {
        if validators.len() == 0 {
            self
        } else {
            self.with_genesis_validators(
                validators.drop_last(),
                params,
                epoch,
            ).with_genesis_validator(validators.last(), params, epoch)
        }
    }

    /// The records after the first block: the parameters, the records of each
    /// stakeholder, the validator set and the total voting power.
    pub open spec fn after_genesis<PK: View<V = K>>(
        self,
        params: PosParams,
        validators: Seq<GenesisValidator<PK>>,
        epoch: Epoch,
    ) -> PosRecords<K> {
        PosRecords {
            validator_set: from_epoch(epoch, genesis_validator_set(validators, params)),
            total_voting_power: from_epoch(
                epoch,
                VotingPower(total_power(validators, params) as u64),
            ),
            ..(PosRecords { params, ..self }).with_genesis_validators(validators, params, epoch)
        }
    }

    /// What becomes of the records, and what the caller is told, when
    /// `address` asks to become a validator at `epoch`.
    pub open spec fn become_validator(
        self,
        address: Address,
        staking_reward_address: Address,
        consensus_key: K,
        epoch: Epoch,
    ) -> (PosRecords<K>, Result<(), BecomeValidatorError>) {
        if self.state.dom().contains(address) {
            (self, Err(BecomeValidatorError::AlreadyValidator))
        } else {
            match value_at(self.validator_set, epoch.plus(self.params.pipeline_length)) {
                None => (self, Err(BecomeValidatorError::StaleQuery)),
                Some(set) => (
                    PosRecords {
                        staking_reward_address: self.staking_reward_address.insert(
                            address,
                            staking_reward_address,
                        ),
                        consensus_key: self.consensus_key.insert(
                            address,
                            Map::<int, K>::empty().insert(
                                epoch.plus(self.params.pipeline_length),
                                consensus_key,
                            ),
                        ),
                        state: self.state.insert(address, newcomer_state(epoch, self.params)),
                        validator_set: with_newcomer(
                            self.validator_set,
                            set,
                            address,
                            epoch,
                            self.params,
                        ),
                        ..self
                    },
                    Ok(()),
                ),
            }
        }
    }

    /// An address that has become a validator cannot become one again: the
    /// second request is refused with `AlreadyValidator`, whatever key, reward
    /// address and epoch it names, and leaves the records as the first left
    /// them.
    pub proof fn lemma_become_validator_twice(
        self,
        address: Address,
        reward1: Address,
        key1: K,
        epoch1: Epoch,
        reward2: Address,
        key2: K,
        epoch2: Epoch,
    )
        requires
            self.become_validator(address, reward1, key1, epoch1).1 != Err::<
                (),
                BecomeValidatorError,
            >(BecomeValidatorError::StaleQuery),
        ensures
            self.become_validator(address, reward1, key1, epoch1).0.become_validator(
                address,
                reward2,
                key2,
                epoch2,
            ) == (
                self.become_validator(address, reward1, key1, epoch1).0,
                Err::<(), BecomeValidatorError>(BecomeValidatorError::AlreadyValidator),
            ),
    {
    }

    /// Where every validator set on record is in order and ranked for the
    /// capacity of the parameters, it is so after a request to become a
    /// validator.
    pub proof fn lemma_become_validator_keeps_ranking(
        self,
        address: Address,
        reward: Address,
        key: K,
        epoch: Epoch,
    )
        requires
            sets_wf(self.validator_set),
            sets_ranked(self.validator_set, self.params.max_active_validators),
        ensures
            sets_wf(self.become_validator(address, reward, key, epoch).0.validator_set),
            sets_ranked(
                self.become_validator(address, reward, key, epoch).0.validator_set,
                self.params.max_active_validators,
            ),
    {
        if self.become_validator(address, reward, key, epoch).1 is Ok {
            let set = value_at(self.validator_set, epoch.plus(self.params.pipeline_length))->0;
            lemma_with_newcomer_ranked(
                self.validator_set,
                set,
                address,
                epoch,
                self.params,
                self.params.max_active_validators,
            );
        }
    }

    /// After the first block the validator set on record is in order and
    /// ranked for the capacity of the parameters.
    pub proof fn lemma_after_genesis_ranked<PK: View<V = K>>(
        self,
        params: PosParams,
        validators: Seq<GenesisValidator<PK>>,
        epoch: Epoch,
    )
        ensures
            self.after_genesis(params, validators, epoch).params == params,
            sets_wf(self.after_genesis(params, validators, epoch).validator_set),
            sets_ranked(
                self.after_genesis(params, validators, epoch).validator_set,
                params.max_active_validators,
            ),
    {
        lemma_genesis_validator_set_ranked(validators, params);
        self.lemma_with_genesis_validators_keeps(
            PosRecords { params, ..self },
            validators,
            params,
            epoch,
        );
    }

    /// The records of the stakeholders leave the parameters, the validator set
    /// and the total voting power as they are.
    pub proof fn lemma_with_genesis_validators_keeps<PK: View<V = K>>(
        self,
        start: PosRecords<K>,
        validators: Seq<GenesisValidator<PK>>,
        params: PosParams,
        epoch: Epoch,
    )
        ensures
            start.with_genesis_validators(validators, params, epoch).params == start.params,
            start.with_genesis_validators(validators, params, epoch).validator_set
                == start.validator_set,
            start.with_genesis_validators(validators, params, epoch).total_voting_power
                == start.total_voting_power,
        decreases validators.len(),
    {
        if validators.len() > 0 {
            self.lemma_with_genesis_validators_keeps(start, validators.drop_last(), params, epoch);
        }
    }

    /// A request that is refused changes nothing.
    pub proof fn lemma_refused_changes_nothing(
        self,
        address: Address,
        reward: Address,
        key: K,
        epoch: Epoch,
    )
        requires
            self.become_validator(address, reward, key, epoch).1 is Err,
        ensures
            self.become_validator(address, reward, key, epoch).0 == self,
    {
    }
}

/// The items of `items`, last first.
fn reversed<T>(items: Vec<T>) -> (r: Vec<T>)
    ensures
        r@ == items@.reverse(),
{
    let ghost all = items@;
    let mut items = items;
    let mut r: Vec<T> = Vec::new();
    while items.len() > 0
        invariant
            items@.len() + r@.len() == all.len(),
            items@ == all.subrange(0, items@.len() as int),
            forall|j: int| 0 <= j < r@.len() ==> r@[j] == all[all.len() - 1 - j],
        decreases items@.len(),
    {
        let item = items.pop().unwrap();
        r.push(item);
    }
    assert(r@ =~= all.reverse());
    r
}

/// The store of the validator bookkeeping: it keeps each record under its key
/// and hands back what was written last. On top of that the trait provides
/// the first block and the step by which an account becomes a validator.
pub trait Pos {
    /// The consensus key of a validator.
    type PublicKey: View + Copy;

    /// The number of the address of the account that holds the bonded
    /// tokens.
    const POS_ADDRESS: u64;

    /// What the store holds. A store that is verified says so here; the
    /// contracts below bind no other.
    open spec fn records(&self) -> PosRecords<<Self::PublicKey as View>::V> {
        arbitrary()
    }

    /// The store is in order: what it holds can be read back.
    open spec fn valid(&self) -> bool {
        true
    }

    /// Keeps the parameters.
    fn write_params(&mut self, params: &PosParams)
        requires
            old(self).valid(),
        ensures
            final(self).valid(),
            final(self).records() == (PosRecords { params: *params, ..old(self).records() }),
    ;

    /// Keeps the address that the rewards of the validator `key` go to.
    fn write_validator_staking_reward_address(&mut self, key: &Address, value: Address)
        requires
            old(self).valid(),
        ensures
            final(self).valid(),
            final(self).records() == (PosRecords {
                staking_reward_address: old(self).records().staking_reward_address.insert(
                    *key,
                    value,
                ),
                ..old(self).records()
            }),
    ;

    /// Keeps the consensus key history of the validator `key`.
    fn write_validator_consensus_key(
        &mut self,
        key: &Address,
        value: EpochedValue<Self::PublicKey>,
    )
        requires
            old(self).valid(),
            value.wf(),
        ensures
            final(self).valid(),
            final(self).records() == (PosRecords {
                consensus_key: old(self).records().consensus_key.insert(*key, value@),
                ..old(self).records()
            }),
    ;

    /// Keeps the state history of the validator `key`.
    fn write_validator_state(&mut self, key: &Address, value: EpochedValue<ValidatorState>)
        requires
            old(self).valid(),
            value.wf(),
        ensures
            final(self).valid(),
            final(self).records() == (PosRecords {
                state: old(self).records().state.insert(*key, value@),
                ..old(self).records()
            }),
    ;

    /// Keeps the history of the stake of the validator `key`.
    fn write_validator_total_deltas(&mut self, key: &Address, value: EpochedDelta)
        requires
            old(self).valid(),
            value.wf(),
        ensures
            final(self).valid(),
            final(self).records() == (PosRecords {
                total_deltas: old(self).records().total_deltas.insert(*key, value@),
                ..old(self).records()
            }),
    ;

    /// Keeps the voting power history of the validator `key`.
    fn write_validator_voting_power(&mut self, key: &Address, value: EpochedValue<VotingPower>)
        requires
            old(self).valid(),
            value.wf(),
        ensures
            final(self).valid(),
            final(self).records() == (PosRecords {
                voting_power: old(self).records().voting_power.insert(*key, value@),
                ..old(self).records()
            }),
    ;

    /// Keeps the history of the bond `key`.
    fn write_bond(&mut self, key: &BondId, value: EpochedValue<Bond>)
        requires
            old(self).valid(),
            value.wf(),
        ensures
            final(self).valid(),
            final(self).records() == (PosRecords {
                bond: old(self).records().bond.insert(*key, value@),
                ..old(self).records()
            }),
    ;

    /// Keeps the validator set history.
    fn write_validator_set(&mut self, value: EpochedValue<ValidatorSet>)
        requires
            old(self).valid(),
            value.wf(),
            sets_wf(value@),
        ensures
            final(self).valid(),
            final(self).records() == (PosRecords {
                validator_set: value@,
                ..old(self).records()
            }),
    ;

    /// Keeps the history of the total voting power.
    fn write_total_voting_power(&mut self, value: EpochedValue<VotingPower>)
        requires
            old(self).valid(),
            value.wf(),
        ensures
            final(self).valid(),
            final(self).records() == (PosRecords {
                total_voting_power: value@,
                ..old(self).records()
            }),
    ;

    /// The parameters.
    fn read_params(&self) -> (r: PosParams)
        requires
            self.valid(),
        ensures
            r == self.records().params,
    ;

    /// The address that the rewards of the validator `key` go to, if one is kept.
    fn read_validator_staking_reward_address(&self, key: &Address) -> (r: Option<Address>)
        requires
            self.valid(),
        ensures
            r == if self.records().staking_reward_address.dom().contains(*key) {
                Some(self.records().staking_reward_address[*key])
            } else {
                None
            },
    ;

    /// The consensus key history of the validator `key`, if one is kept.
    fn read_validator_consensus_key(&self, key: &Address) -> (r: Option<
        EpochedValue<Self::PublicKey>,
    >)
        requires
            self.valid(),
        ensures
            r is Some <==> self.records().consensus_key.dom().contains(*key),
            r matches Some(h) ==> h.wf() && h@ == self.records().consensus_key[*key],
    ;

    /// The state history of the validator `key`, if one is kept.
    fn read_validator_state(&self, key: &Address) -> (r: Option<EpochedValue<ValidatorState>>)
        requires
            self.valid(),
        ensures
            r is Some <==> self.records().state.dom().contains(*key),
            r matches Some(h) ==> h.wf() && h@ == self.records().state[*key],
    ;

    /// The history of the stake of the validator `key`, if one is kept.
    fn read_validator_total_deltas(&self, key: &Address) -> (r: Option<EpochedDelta>)
        requires
            self.valid(),
        ensures
            r is Some <==> self.records().total_deltas.dom().contains(*key),
            r matches Some(h) ==> h.wf() && h@ == self.records().total_deltas[*key],
    ;

    /// The voting power history of the validator `key`, if one is kept.
    fn read_validator_voting_power(&self, key: &Address) -> (r: Option<
        EpochedValue<VotingPower>,
    >)
        requires
            self.valid(),
        ensures
            r is Some <==> self.records().voting_power.dom().contains(*key),
            r matches Some(h) ==> h.wf() && h@ == self.records().voting_power[*key],
    ;

    /// The history of the bond `key`, if one is kept.
    fn read_bond(&mut self, key: &BondId) -> (r: Option<EpochedValue<Bond>>)
        requires
            old(self).valid(),
        ensures
            final(self).valid(),
            final(self).records() == old(self).records(),
            r is Some <==> old(self).records().bond.dom().contains(*key),
            r matches Some(h) ==> h.wf() && h@ == old(self).records().bond[*key],
    ;

    /// The validator set history.
    fn read_validator_set(&mut self) -> (r: EpochedValue<ValidatorSet>)
        requires
            old(self).valid(),
        ensures
            final(self).valid(),
            final(self).records() == old(self).records(),
            r.wf(),
            sets_wf(r@),
            r@ == old(self).records().validator_set,
    ;

    /// The history of the total voting power.
    fn read_total_voting_power(&mut self) -> (r: EpochedValue<VotingPower>)
        requires
            old(self).valid(),
        ensures
            final(self).valid(),
            final(self).records() == old(self).records(),
            r.wf(),
            r@ == old(self).records().total_voting_power,
    ;

    /// Moves tokens of the kind `token` from `source` to `target`. The
    /// records of the validator bookkeeping stay as they are.
    fn transfer(&mut self, token: &Address, source: &Address, target: &Address)
        requires
            old(self).valid(),
        ensures
            final(self).valid(),
            final(self).records() == old(self).records(),
    ;

    /// Writes the first block: the parameters, the records of each
    /// stakeholder, whose tokens go into a bond from itself to itself, the
    /// validator set and the total voting power. The total must fit in a
    /// `u64`.
    fn init_genesis(
        &mut self,
        params: &PosParams,
        validators: &[GenesisValidator<Self::PublicKey>],
        current_epoch: Epoch,
    )
        requires
            old(self).valid(),
            total_power(validators@, *params) <= u64::MAX,
        ensures
            final(self).valid(),
            final(self).records() == old(self).records().after_genesis(
                *params,
                validators@,
                current_epoch,
            ),
    {
        self.write_params(params);
        let ghost start = self.records();
        let ghost all = validators@;
        let data = init_genesis_data(params, validators, current_epoch);
        let ghost given = data.validators@;
        let mut records = reversed(data.validators);
        let ghost mut i: int = 0;
        while records.len() > 0
            invariant
                self.valid(),
                0 <= i,
                i + records@.len() == all.len(),
                given.len() == all.len(),
                records@ == given.subrange(i, given.len() as int).reverse(),
                forall|j: int|
                    0 <= j < all.len() ==> (#[trigger] given[j]).is_for(
                        all[j],
                        *params,
                        current_epoch,
                    ),
                self.records() == start.with_genesis_validators(
                    all.subrange(0, i),
                    *params,
                    current_epoch,
                ),
            decreases records@.len(),
        {
            let ghost before = records@;
            let record = records.pop().unwrap();
            proof {
                assert(record == before.last());
                assert(record == given[i]);
                assert(record.is_for(all[i], *params, current_epoch));
                assert(records@ =~= given.subrange(i + 1, given.len() as int).reverse());
                assert(all.subrange(0, i + 1).drop_last() =~= all.subrange(0, i));
                assert(all.subrange(0, i + 1).last() == all[i]);
            }
            let address = record.address;
            self.write_validator_staking_reward_address(&address, record.staking_reward_address);
            self.write_validator_consensus_key(&address, record.consensus_key);
            self.write_validator_state(&address, record.state);
            self.write_validator_total_deltas(&address, record.total_deltas);
            self.write_validator_voting_power(&address, record.voting_power);
            self.write_bond(&record.bond.0, record.bond.1);
            proof {
                i = i + 1;
            }
        }
        proof {
            assert(all.subrange(0, all.len() as int) =~= all);
            lemma_genesis_validator_set_ranked(all, *params);
        }
        self.write_validator_set(data.validator_set);
        self.write_total_voting_power(data.total_voting_power);
    }

    /// Makes `address` a validator, as far as the records go: its reward
    /// address, its key from `pipeline_length` epochs after `current_epoch`,
    /// its state, and its entry in the inactive partition of the validator
    /// set. An address with a validator state is refused, and so is a request
    /// for an epoch whose validator set is not kept; neither changes
    /// anything.
    fn become_validator(
        &mut self,
        address: &Address,
        staking_reward_address: &Address,
        consensus_key: &Self::PublicKey,
        current_epoch: Epoch,
    ) -> (r: Result<(), BecomeValidatorError>)
        requires
            old(self).valid(),
        ensures
            final(self).valid(),
            final(self).records() == old(self).records().become_validator(
                *address,
                *staking_reward_address,
                consensus_key@,
                current_epoch,
            ).0,
            r == old(self).records().become_validator(
                *address,
                *staking_reward_address,
                consensus_key@,
                current_epoch,
            ).1,
    {
        let params = self.read_params();
        let mut validator_set = self.read_validator_set();
        if self.is_validator(address) {
            return Err(BecomeValidatorError::AlreadyValidator);
        }
        match become_validator_data(
            &params,
            address,
            consensus_key,
            &mut validator_set,
            current_epoch,
        ) {
            None => Err(BecomeValidatorError::StaleQuery),
            Some(data) => {
                self.write_validator_staking_reward_address(address, *staking_reward_address);
                self.write_validator_consensus_key(address, data.consensus_key);
                self.write_validator_state(address, data.state);
                self.write_validator_set(validator_set);
                Ok(())
            },
        }
    }

    /// Whether `address` is a validator: whether it has a state.
    fn is_validator(&mut self, address: &Address) -> (r: bool)
        requires
            old(self).valid(),
        ensures
            final(self).valid(),
            final(self).records() == old(self).records(),
            r == old(self).records().state.dom().contains(*address),
    {
        self.read_validator_state(address).is_some()
    }
}

} // verus!
