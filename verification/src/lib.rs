//! tok — the value layer: conservation clip + settle mint (the PLUMB mint
//! path), the mint ledger it settles into, and the reward, fee and market
//! splits built on that ledger.
//!
//! PLUMB laws this crate keeps and proves:
//! 1. Token conservation — Σ balances = mints − burns per Coin class, in
//!    every ledger state (the ledger's type invariant).
//! 2. Atomicity — all legs of one mint, birth mint or fee distribution
//!    commit together or none do.

pub mod fixed;
pub mod ids;
pub mod slots;
pub mod ledger;
pub mod conservation;
pub mod hashing;
pub mod mint;
pub mod referral;
pub mod pow_subsidy;
pub mod service_fee;
pub mod stake;
pub mod icbs;
pub mod sybil;
pub mod fee_share;
pub mod fees;
pub mod book;

pub use book::BookRegistry;
pub use conservation::{allocate, clip_shares, conserve_shares, ConserveError, ConserveResult};
pub use ids::{NeuronId, TokenId};
pub use ledger::{LedgerError, MintLedger};
pub use mint::{settle_mints, MintError, MintLeg, MintReceipt};
