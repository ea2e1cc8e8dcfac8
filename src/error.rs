use vstd::prelude::*;

verus! {

/// What can go wrong in the chain engine.
#[derive(Debug, Clone, Copy, PartialEq, Eq, Structural)]
pub enum ChainError {
    /// Bytes that do not decode as the expected record.
    Malformed,
    /// An address that does not decode, or whose version or checksum is wrong.
    InvalidAddress,
    /// No wallet is held for the sending address.
    WalletNotFound,
    /// The sender's spendable outputs do not cover the amount.
    NotEnoughFunds,
    /// An input refers to a transaction, or an output of it, that the chain does not hold.
    PreviousTransactionMissing,
    /// A transaction handed to the miner does not verify.
    InvalidTransaction,
    /// The signing key was rejected or no randomness was available.
    SigningFailed,
    /// No key pair could be generated.
    KeyGenerationFailed,
    /// An input spends an output that the unspent-output index does not hold.
    UtxoNotFound,
    /// The store holds no chain tip.
    NoBlockchain,
    /// A sum of output values left the range of a 64-bit integer.
    AmountOverflow,
}

} // verus!
