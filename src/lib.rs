//! A transaction bundler for a UTXO-style settlement contract: a pool of
//! pending operations with exclusive inputs, a pool of claimable deposits,
//! and a greedy selector that packs the most profitable bundle.

pub mod codec;
pub mod commands;
pub mod contracts;
pub mod pending;
pub mod pool;
pub mod signer;
pub mod uint;

pub use codec::DecodeError;
pub use contracts::{Address, Bundle, Claim, Deposit, Inputs, Signature, Transaction, Transfer, Txn, Withdrawal};
pub use pending::Pending;
pub use pool::{DepositPool, Identified, Pool};
pub use signer::AbstractSigner;
pub use uint::U256;
