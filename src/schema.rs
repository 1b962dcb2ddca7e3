//! Records that the node stores and serves: transactions, receipts and their
//! storage categories.

use vstd::prelude::*;

use crate::consensus::Digest;

verus! {

/// What a transaction asks a service to do.
#[derive(Debug, Clone, PartialEq, Eq)]
pub struct TransactionRequest {
    pub method: String,
    pub service_name: String,
    pub payload: String,
}

#[derive(Debug, Clone, PartialEq, Eq)]
pub struct RawTransaction {
    pub chain_id: Digest,
    pub cycles_price: u64,
    pub cycles_limit: u64,
    pub nonce: Digest,
    pub request: TransactionRequest,
    pub timeout: u64,
    pub sender: Vec<u8>,
}

/// An event that a service emitted while running a transaction.
#[derive(Debug, Clone, PartialEq, Eq)]
pub struct Event {
    pub service: String,
    pub name: String,
    pub data: String,
}

/// The answer of a service to a transaction.
#[derive(Debug, Clone, PartialEq, Eq)]
pub struct ReceiptResponse {
    pub service_name: String,
    pub method: String,
    pub code: u64,
    pub succeed_data: String,
    pub error_message: String,
}

#[derive(Debug, Clone, PartialEq, Eq)]
pub struct Receipt {
    pub state_root: Digest,
    pub height: u64,
    pub tx_hash: Digest,
    pub cycles_used: u64,
    pub events: Vec<Event>,
    pub response: ReceiptResponse,
}

/// The kind of record a storage key belongs to.
#[derive(Debug, Clone, Copy, PartialEq, Eq, Structural)]
pub enum StorageCategory {
    Block,
    BlockHeader,
    Receipt,
    SignedTransaction,
    Wal,
    HashHeight,
}

/// One change of a batch write: remove the key, or store the encoded value.
#[derive(Debug, Clone, PartialEq, Eq)]
pub enum StorageBatchModify {
    Remove,
    Insert(Vec<u8>),
}

impl StorageCategory {
    /// The category's name.
    pub fn name(&self) -> (r: &'static str)
        ensures
            r@.len() > 0,
    {
        match self {
            StorageCategory::Block => {
                proof { reveal_strlit("Block"); }
                "Block"
            },
            StorageCategory::BlockHeader => {
                proof { reveal_strlit("BlockHeader"); }
                "BlockHeader"
            },
            StorageCategory::Receipt => {
                proof { reveal_strlit("Receipt"); }
                "Receipt"
            },
            StorageCategory::SignedTransaction => {
                proof { reveal_strlit("SignedTransaction"); }
                "SignedTransaction"
            },
            StorageCategory::Wal => {
                proof { reveal_strlit("Wal"); }
                "Wal"
            },
            StorageCategory::HashHeight => {
                proof { reveal_strlit("HashHeight"); }
                "HashHeight"
            },
        }
    }
}

} // verus!
