//! A verified binary codec for a simplified Bitcoin-style transaction.
//!
//! The wire format follows Bitcoin's conventions: a self-describing
//! variable-length integer (`CompactSize`), fixed-layout references to prior
//! outputs (`OutPoint`), length-prefixed opaque byte buffers (`Script`),
//! and the composite records `TransactionInput` and `BitcoinTransaction`.
//! Every encoder is proved to produce exactly the canonical byte form, every
//! decoder is proved to return exactly what the format prescribes (value and
//! bytes consumed, or the precise error), and round-trip lemmas tie the two
//! together.

use vstd::prelude::*;

pub mod ascii;
pub mod compact_size;
pub mod dec;
pub mod outpoint;
pub mod script;
pub mod text;
pub mod transaction;
pub mod tx_input;
pub mod txid;

pub use compact_size::CompactSize;
pub use outpoint::OutPoint;
pub use script::Script;
pub use transaction::BitcoinTransaction;
pub use tx_input::TransactionInput;
pub use txid::Txid;

verus! {

/// Why a decode operation failed.
#[derive(Debug, Clone, Copy, PartialEq, Eq)]
pub enum BitcoinError {
    /// The buffer is shorter than the format requires at the current position.
    InsufficientBytes,
    /// The content is malformed (empty buffer, invalid text, wrong byte count).
    InvalidFormat,
}

} // verus!
