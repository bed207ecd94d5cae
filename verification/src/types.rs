//! Plain value types of the validator bookkeeping: epochs, parameters,
//! addresses, voting power and the records handed in at genesis.

use vstd::prelude::*;

verus! {

/// A consensus round boundary. Epochs are totally ordered and their
/// arithmetic saturates at both ends of the `u64` range.
#[derive(Clone, Copy, Debug, PartialEq, Eq, Structural, PartialOrd, Ord, Hash)]
pub struct Epoch(pub u64);

impl Epoch {
    /// The epoch `n` rounds after this one, capped at the last epoch.
    pub open spec fn plus(self, n: u64) -> int {
        if self.0 + n > u64::MAX {
            u64::MAX as int
        } else {
            self.0 + n
        }
    }

    /// The epoch `n` rounds before this one, never below epoch zero.
    pub open spec fn minus(self, n: u64) -> int {
        if self.0 < n {
            0
        } else {
            self.0 - n
        }
    }

    /// The epoch `n` rounds after this one, capped at the last epoch.
    pub fn saturating_add(self, n: u64) -> (r: Epoch)
        ensures
            r.0 == self.plus(n),
    {
        if self.0 > u64::MAX - n {
            Epoch(u64::MAX)
        } else {
            Epoch(self.0 + n)
        }
    }

    /// The epoch `n` rounds before this one, never below epoch zero.
    pub fn saturating_sub(self, n: u64) -> (r: Epoch)
        ensures
            r.0 == self.minus(n),
    {
        if self.0 < n {
            Epoch(0)
        } else {
            Epoch(self.0 - n)
        }
    }
}

/// Which of the two window lengths a write looks ahead by.
#[derive(Clone, Copy, Debug, PartialEq, Eq, Structural, Hash)]
pub enum DynEpochOffset {
    /// Changes that affect the validator set.
    PipelineLen,
    /// Changes to stake accounting.
    UnbondingLen,
}

/// The window lengths and the cap on the active set.
#[derive(Clone, Copy, Debug, PartialEq, Eq, Structural, Hash)]
pub struct PosParams {
    /// Epochs a forward-looking change waits before it takes effect.
    pub pipeline_length: u64,
    /// Epochs a value stays queryable in the past.
    pub unbonding_length: u64,
    /// The most validators the active set may hold.
    pub max_active_validators: u64,
}

impl PosParams {
    /// `unbonding_length >= pipeline_length >= 1`.
    pub open spec fn valid(self) -> bool {
        1 <= self.pipeline_length <= self.unbonding_length
    }

    /// The number of epochs that `kind` stands for.
    pub open spec fn offset(self, kind: DynEpochOffset) -> u64 {
        match kind {
            DynEpochOffset::PipelineLen => self.pipeline_length,
            DynEpochOffset::UnbondingLen => self.unbonding_length,
        }
    }

    /// The parameters, if they respect `unbonding_length >= pipeline_length >= 1`.
    pub fn new(pipeline_length: u64, unbonding_length: u64, max_active_validators: u64) -> (r:
        Option<PosParams>)
        ensures
            r == if 1 <= pipeline_length <= unbonding_length {
                Some(PosParams { pipeline_length, unbonding_length, max_active_validators })
            } else {
                None
            },
    {
        if 1 <= pipeline_length && pipeline_length <= unbonding_length {
            Some(PosParams { pipeline_length, unbonding_length, max_active_validators })
        } else {
            None
        }
    }

    /// Whether `unbonding_length >= pipeline_length >= 1`.
    pub fn is_valid(&self) -> (r: bool)
        ensures
            r == self.valid(),
    {
        1 <= self.pipeline_length && self.pipeline_length <= self.unbonding_length
    }
}

/// An epoch with the parameters in force: the window of a write made at that
/// epoch. All offsets are taken from here.
#[derive(Clone, Copy, Debug, PartialEq, Eq, Structural, Hash)]
pub struct EpochWindow {
    pub epoch: Epoch,
    pub params: PosParams,
}

impl EpochWindow {
    /// The first epoch that stays queryable after a write at `epoch`:
    /// `unbonding_length` epochs back, never before epoch zero.
    pub open spec fn start(self) -> int {
        self.epoch.minus(self.params.unbonding_length)
    }

    /// The epoch on which a write of `kind` made at `epoch` lands.
    pub open spec fn horizon(self, kind: DynEpochOffset) -> int {
        self.epoch.plus(self.params.offset(kind))
    }

    /// Whether `e` lies in the window and before the epoch on which a write
    /// that affects the validator set lands.
    pub open spec fn covers(self, e: int) -> bool {
        self.start() <= e < self.horizon(DynEpochOffset::PipelineLen)
    }

    /// The window of a write made at `epoch` under `params`.
    pub fn new(epoch: Epoch, params: &PosParams) -> (r: EpochWindow)
        ensures
            r == (EpochWindow { epoch, params: *params }),
    {
        EpochWindow { epoch, params: *params }
    }

    /// The first epoch that stays queryable.
    pub fn start_epoch(&self) -> (r: Epoch)
        ensures
            r.0 == self.start(),
    {
        self.epoch.saturating_sub(self.params.unbonding_length)
    }

    /// The epoch on which a write of `kind` lands.
    pub fn horizon_epoch(&self, kind: DynEpochOffset) -> (r: Epoch)
        ensures
            r.0 == self.horizon(kind),
    {
        self.epoch.saturating_add(kind.value(&self.params))
    }

    /// Whether `e` lies in the window and before the epoch on which a write
    /// that affects the validator set lands.
    pub fn contains(&self, e: Epoch) -> (r: bool)
        ensures
            r == self.covers(e.0 as int),
    {
        self.start_epoch().0 <= e.0 && e.0 < self.horizon_epoch(DynEpochOffset::PipelineLen).0
    }
}

impl DynEpochOffset {
    /// The number of epochs that this offset stands for under `params`.
    pub fn value(&self, params: &PosParams) -> (r: u64)
        ensures
            r == params.offset(*self),
    {
        match self {
            DynEpochOffset::PipelineLen => params.pipeline_length,
            DynEpochOffset::UnbondingLen => params.unbonding_length,
        }
    }
}

/// An amount of tokens.
pub type TokenAmount = u64;

/// A change of an amount of tokens, up or down.
pub type TokenChange = i128;

/// An account, identified by a number. Addresses are ordered by that number.
#[derive(Clone, Copy, Debug, PartialEq, Eq, Structural, PartialOrd, Ord, Hash)]
pub struct Address(pub u64);

/// The consensus weight that bonded stake gives.
#[derive(Clone, Copy, Debug, PartialEq, Eq, Structural, PartialOrd, Ord, Hash)]
pub struct VotingPower(pub u64);

impl View for VotingPower {
    type V = VotingPower;

    open spec fn view(&self) -> VotingPower {
        *self
    }
}

impl VotingPower {
    /// The weight of `tokens` bonded tokens: one unit of power for each token.
    /// Everything else speaks of the conversion through this function only.
    pub open spec fn of_tokens(tokens: TokenAmount, params: PosParams) -> u64 {
        tokens
    }

    /// The voting power of `tokens` bonded tokens.
    pub fn from_tokens(tokens: TokenAmount, params: &PosParams) -> (r: VotingPower)
        ensures
            r.0 == Self::of_tokens(tokens, *params),
    {
        VotingPower(tokens)
    }

    /// More tokens never give less power.
    pub proof fn lemma_of_tokens_monotone(a: u64, b: u64, params: PosParams)
        requires
            a <= b,
        ensures
            Self::of_tokens(a, params) <= Self::of_tokens(b, params),
    {
    }

    /// Different token amounts give different power.
    pub proof fn lemma_of_tokens_injective(a: u64, b: u64, params: PosParams)
        requires
            Self::of_tokens(a, params) == Self::of_tokens(b, params),
        ensures
            a == b,
    {
    }
}

impl Default for VotingPower {
    /// No voting power.
    fn default() -> (r: VotingPower)
        ensures
            r.0 == 0,
    {
        VotingPower(0)
    }
}

/// Where a validator stands in its life cycle.
#[derive(Clone, Copy, Debug, PartialEq, Eq, Structural, Hash)]
pub enum ValidatorState {
    /// Registered, not yet eligible for consensus.
    Pending,
    /// Eligible: in the active or the inactive partition.
    Candidate,
    /// Excluded at its own wish.
    Inactive,
    /// Excluded for misbehaviour.
    Jailed,
}

impl View for ValidatorState {
    type V = ValidatorState;

    open spec fn view(&self) -> ValidatorState {
        *self
    }
}

/// A validator with the power it is ranked by.
#[derive(Clone, Copy, Debug, PartialEq, Eq, Structural, Hash)]
pub struct WeightedValidator {
    pub voting_power: VotingPower,
    pub address: Address,
}

impl WeightedValidator {
    /// The order in which validators leave the active set: less power first,
    /// and among equal powers the lower address first.
    pub open spec fn precedes(self, other: WeightedValidator) -> bool {
        self.voting_power.0 < other.voting_power.0 || (self.voting_power.0 == other.voting_power.0
            && self.address.0 < other.address.0)
    }

    /// The order in which validators are listed for consensus: more power
    /// first, and among equal powers the lower address first.
    pub open spec fn outranks(self, other: WeightedValidator) -> bool {
        self.voting_power.0 > other.voting_power.0 || (self.voting_power.0 == other.voting_power.0
            && self.address.0 < other.address.0)
    }

    /// Whether this validator leaves the active partition before `other`.
    pub fn is_before(&self, other: &WeightedValidator) -> (r: bool)
        ensures
            r == self.precedes(*other),
    {
        self.voting_power.0 < other.voting_power.0 || (self.voting_power.0 == other.voting_power.0
            && self.address.0 < other.address.0)
    }

    /// Whether consensus lists this validator before `other`.
    pub fn ranks_above(&self, other: &WeightedValidator) -> (r: bool)
        ensures
            r == self.outranks(*other),
    {
        self.voting_power.0 > other.voting_power.0 || (self.voting_power.0 == other.voting_power.0
            && self.address.0 < other.address.0)
    }

    /// The listing order is a strict total order: of two different validators
    /// exactly one outranks the other, and outranking is transitive.
    pub proof fn lemma_outranks_total_order(a: WeightedValidator, b: WeightedValidator, c: WeightedValidator)
        ensures
            !a.outranks(a),
            a != b ==> (a.outranks(b) <==> !b.outranks(a)),
            a.outranks(b) && b.outranks(c) ==> a.outranks(c),
    {
    }
}

/// The two accounts of a bond: whose stake it is, and for which validator.
#[derive(Clone, Copy, Debug, PartialEq, Eq, Structural, Hash)]
pub struct BondId {
    pub source: Address,
    pub validator: Address,
}

/// One stakeholder of the first block.
#[derive(Debug, PartialEq, Eq)]
pub struct GenesisValidator<PK> {
    pub address: Address,
    pub staking_reward_address: Address,
    pub tokens: TokenAmount,
    pub consensus_key: PK,
}

} // verus!
