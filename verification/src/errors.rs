//! Error kinds surfaced by the library.

use vstd::prelude::*;

verus! {

/// Every failure a chain, wallet or transaction operation can report.
#[derive(Debug, Clone)]
pub enum ChainError {
    /// Opening a chain store that was never initialized.
    StoreMissing,
    /// Creating a chain over a store that already holds one.
    AlreadyInitialized,
    /// A transaction or block lookup missed.
    NotFound { txid: String },
    /// A signature failed, a referenced previous transaction is wrong,
    /// or an amount is not positive.
    InvalidTransaction,
    /// Not enough unspent outputs to cover a transfer.
    InsufficientFunds { accumulated: i32, requested: i32 },
    /// No wallet is stored under the given address.
    WalletMissing { address: String },
    /// A persisted record failed to decode.
    SerializationError,
    /// A key, digest or nonce search failed.
    CryptoError,
    /// The underlying key-value store reported a failure.
    StoreFailure,
}

impl ChainError {
    /// A short human-readable description.
    pub fn describe(&self) -> &'static str {
        match self {
            ChainError::StoreMissing => "blockchain store not found: create it first",
            ChainError::AlreadyInitialized => "blockchain already exists",
            ChainError::NotFound { .. } => "transaction is not found",
            ChainError::InvalidTransaction => "invalid transaction",
            ChainError::InsufficientFunds { .. } => "not enough balance",
            ChainError::WalletMissing { .. } => "wallet not found",
            ChainError::SerializationError => "stored data is corrupt",
            ChainError::CryptoError => "cryptographic operation failed",
            ChainError::StoreFailure => "key-value store failure",
        }
    }
}

} // verus!
