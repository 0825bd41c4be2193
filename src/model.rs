use vstd::prelude::*;

use crate::account::{account_of, empty_hash_spec, AccountView};
use crate::error::DatabaseError;
use crate::types::{Address, BlockId, SlotKey, B256, U256};

verus! {

/// Where an account or storage fetch is to be made.
#[derive(Clone, Copy, Debug, PartialEq, Eq, Structural)]
pub enum Source {
    /// Ask the local archive at this block number first; where it cannot
    /// serve that block, ask the remote provider at the given block.
    Local(u64, BlockId),
    /// Ask the remote provider at the given block.
    Remote(BlockId),
}

/// The state of the event loop: the cache, the listeners that wait on each
/// fetch in flight, the pinned block, and whether a local archive is
/// configured.
pub struct HandlerView {
    pub accounts: Map<Address, AccountView>,
    pub storage: Map<Address, Map<U256, U256>>,
    pub block_hashes: Map<U256, B256>,
    pub account_waiters: Map<Address, Seq<u64>>,
    pub storage_waiters: Map<SlotKey, Seq<u64>>,
    pub block_waiters: Map<u64, Seq<u64>>,
    pub pin: Option<BlockId>,
    pub local: bool,
}

/// What the event loop is to do after a lookup: answer a listener from the
/// cache, start a fetch, or nothing more (the listener joined a fetch in
/// flight, or the cache was updated).
pub enum ActionView {
    Account(u64, AccountView),
    Storage(u64, U256),
    BlockHash(u64, B256),
    FetchAccount(Address, Source),
    FetchStorage(Address, U256, Source),
    FetchBlockHash(u64),
    FetchFullBlock(BlockId, u64),
    FetchTransaction(B256, u64),
    Wait,
    Updated,
}

/// The block at which remote fetches are made: the pin, or the latest block
/// where none is set.
pub open spec fn remote_block(s: HandlerView) -> BlockId {
    match s.pin {
        Some(b) => b,
        None => BlockId::Latest,
    }
}

/// Where account and storage fetches go: the local archive first, where one
/// is configured and the pin is a block number, else the remote provider.
pub open spec fn source_of(s: HandlerView) -> Source {
    match s.pin {
        Some(BlockId::Number(n)) => if s.local {
            Source::Local(n, BlockId::Number(n))
        } else {
            Source::Remote(BlockId::Number(n))
        },
        _ => Source::Remote(remote_block(s)),
    }
}

/// The block that a fetch from the source is pinned to, whichever tier
/// serves it.
pub open spec fn source_block(src: Source) -> BlockId {
    match src {
        Source::Local(n, _) => BlockId::Number(n),
        Source::Remote(b) => b,
    }
}

/// The listeners waiting on `k`, or none.
pub open spec fn waiters_of<K>(m: Map<K, Seq<u64>>, k: K) -> Seq<u64> {
    if m.contains_key(k) {
        m[k]
    } else {
        Seq::empty()
    }
}

/// Registers listener `l` on `k`: appended to the waiters of a fetch in
/// flight, or as the first waiter of a new one.
pub open spec fn add_waiter<K>(m: Map<K, Seq<u64>>, k: K, l: u64) -> Map<K, Seq<u64>> {
    m.insert(k, waiters_of(m, k).push(l))
}

/// The cached value of a storage slot, if any.
pub open spec fn cached_slot(s: HandlerView, a: Address, i: U256) -> Option<U256> {
    if s.storage.contains_key(a) && s.storage[a].contains_key(i) {
        Some(s.storage[a][i])
    } else {
        None
    }
}

/// A request for an account's basic info, answered for listener `l`.
pub open spec fn basic_step(s: HandlerView, a: Address, l: u64) -> (HandlerView, ActionView) {
    if s.accounts.contains_key(a) {
        (s, ActionView::Account(l, s.accounts[a]))
    } else if s.account_waiters.contains_key(a) {
        (HandlerView { account_waiters: add_waiter(s.account_waiters, a, l), ..s }, ActionView::Wait)
    } else {
        (
            HandlerView { account_waiters: add_waiter(s.account_waiters, a, l), ..s },
            ActionView::FetchAccount(a, source_of(s)),
        )
    }
}

/// A request for a storage slot, answered for listener `l`.
pub open spec fn storage_step(s: HandlerView, a: Address, i: U256, l: u64) -> (HandlerView, ActionView) {
    let k = SlotKey { address: a, slot: i };
    match cached_slot(s, a, i) {
        Some(v) => (s, ActionView::Storage(l, v)),
        None => if s.storage_waiters.contains_key(k) {
            (HandlerView { storage_waiters: add_waiter(s.storage_waiters, k, l), ..s }, ActionView::Wait)
        } else {
            (
                HandlerView { storage_waiters: add_waiter(s.storage_waiters, k, l), ..s },
                ActionView::FetchStorage(a, i, source_of(s)),
            )
        },
    }
}

/// A request for the hash of block `n`, answered for listener `l`.
pub open spec fn block_hash_step(s: HandlerView, n: u64, l: u64) -> (HandlerView, ActionView) {
    let key = U256::spec_from_u64(n);
    if s.block_hashes.contains_key(key) {
        (s, ActionView::BlockHash(l, s.block_hashes[key]))
    } else if s.block_waiters.contains_key(n) {
        (HandlerView { block_waiters: add_waiter(s.block_waiters, n, l), ..s }, ActionView::Wait)
    } else {
        (
            HandlerView { block_waiters: add_waiter(s.block_waiters, n, l), ..s },
            ActionView::FetchBlockHash(n),
        )
    }
}

/// Moves the pin; nothing cached is dropped.
pub open spec fn pin_step(s: HandlerView, b: BlockId) -> HandlerView {
    HandlerView { pin: Some(b), ..s }
}

/// The cache after a fetched account lands, and the reply that every
/// listener waiting on it receives.
pub open spec fn account_done_step(
    s: HandlerView,
    a: Address,
    resp: Result<(U256, u64, Seq<u8>), String>,
) -> (HandlerView, Result<AccountView, DatabaseError>) {
    let rest = s.account_waiters.remove(a);
    match resp {
        Ok((b, n, c)) => (
            HandlerView { accounts: s.accounts.insert(a, account_of(b, n, c)), account_waiters: rest, ..s },
            Ok(account_of(b, n, c)),
        ),
        Err(e) => (HandlerView { account_waiters: rest, ..s }, Err(DatabaseError::GetAccount(a, e))),
    }
}

/// The slots of account `a` after `i` is set to `v`.
pub open spec fn slots_with(s: HandlerView, a: Address, i: U256, v: U256) -> Map<U256, U256> {
    if s.storage.contains_key(a) {
        s.storage[a].insert(i, v)
    } else {
        Map::empty().insert(i, v)
    }
}

/// The cache after a fetched storage slot lands, and the reply to its
/// listeners.
pub open spec fn storage_done_step(
    s: HandlerView,
    a: Address,
    i: U256,
    resp: Result<U256, String>,
) -> (HandlerView, Result<U256, DatabaseError>) {
    let rest = s.storage_waiters.remove(SlotKey { address: a, slot: i });
    match resp {
        Ok(v) => (
            HandlerView { storage: s.storage.insert(a, slots_with(s, a, i, v)), storage_waiters: rest, ..s },
            Ok(v),
        ),
        Err(e) => (HandlerView { storage_waiters: rest, ..s }, Err(DatabaseError::GetStorage(a, i, e))),
    }
}

/// The hash that a block-by-number answer stands for: the block's hash, or
/// the empty-string hash where the provider has no such block.
pub open spec fn hash_of_answer(found: Option<B256>) -> B256 {
    match found {
        Some(h) => h,
        None => empty_hash_spec(),
    }
}

/// The cache after a fetched block hash lands, and the reply to its
/// listeners.
pub open spec fn block_hash_done_step(
    s: HandlerView,
    n: u64,
    resp: Result<Option<B256>, String>,
) -> (HandlerView, Result<B256, DatabaseError>) {
    let rest = s.block_waiters.remove(n);
    match resp {
        Ok(found) => (
            HandlerView {
                block_hashes: s.block_hashes.insert(U256::spec_from_u64(n), hash_of_answer(found)),
                block_waiters: rest,
                ..s
            },
            Ok(hash_of_answer(found)),
        ),
        Err(e) => (HandlerView { block_waiters: rest, ..s }, Err(DatabaseError::GetBlockHash(n, e))),
    }
}

/// The map after a bulk update writes each entry of `d` in turn, later
/// entries replacing earlier ones with the same key.
pub open spec fn apply_pairs<K, V>(m: Map<K, V>, d: Seq<(K, V)>) -> Map<K, V>
    decreases d.len(),
{
    if d.len() == 0 {
        m
    } else {
        apply_pairs(m.insert(d[0].0, d[0].1), d.drop_first())
    }
}

} // verus!
