//! Validator bookkeeping for a proof-of-stake ledger: values versioned by
//! epoch, the ranked validator set, and the records written at genesis and
//! when an account becomes a validator.

pub mod bond;
pub mod epoched;
pub mod epoched_delta;
pub mod genesis;
pub mod lifecycle;
pub mod memory;
pub mod storage;
pub mod table;
pub mod types;
pub mod validator_set;

pub use genesis::init_genesis_data;
pub use lifecycle::become_validator_data;
pub use lifecycle::BecomeValidatorError;
pub use storage::Pos;
