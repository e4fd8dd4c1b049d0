//! A lock predicate for token-purchase escrow cells.
//!
//! A cell guarded by this lock may be spent only when the transaction pays
//! each escrow owner at least the promised amount of one fungible token, or
//! when every escrow owner co-signs the transaction with an input of their own.

pub mod error;
pub mod codec;
pub mod amount;
pub mod tx;
pub mod owner;
pub mod requirement;
pub mod settlement;
pub mod entry;
pub mod laws;
