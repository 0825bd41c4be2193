use vstd::prelude::*;

use crate::types::{Address, BlockId, B256, U256};

verus! {

/// Why a lookup failed. The `String` that most variants carry is the cause
/// that the provider reported.
#[derive(Clone, Debug, PartialEq, Eq)]
pub enum DatabaseError {
    /// Fetching an account failed.
    GetAccount(Address, String),
    /// Fetching a storage slot failed.
    GetStorage(Address, U256, String),
    /// Fetching a block by number, for its hash, failed.
    GetBlockHash(u64, String),
    /// Fetching a full block failed.
    GetFullBlock(BlockId, String),
    /// Fetching a transaction failed.
    GetTransaction(B256, String),
    /// The provider has no such block.
    BlockNotFound(BlockId),
    /// Code is never looked up by its hash alone.
    MissingCode(B256),
    /// The event loop could not be reached, or dropped the reply.
    Transport(String),
    /// An arbitrary provider request failed.
    AnyRequest(String),
}

} // verus!
