//! A small UTXO-based blockchain library: hash-linked blocks of signed
//! transactions over a persistent key-value store, with a derived index of
//! unspent outputs and wallet management.
//!
//! The canonical binary encoding of every persisted record is defined and
//! verified in [`codec`]; hashing, signatures and the address codec are
//! delegated to outside crates through narrow trusted wrappers.

pub mod address;
pub mod block;
pub mod blockchain;
pub mod codec;
pub mod crypto;
pub mod errors;
pub mod store;
pub mod transaction;
pub mod utxoset;
pub mod wallets;
