use evm_fork_db::account::{empty_hash, AccountInfo};
use evm_fork_db::error::DatabaseError;
use evm_fork_db::handler::{full_block_reply, transaction_reply, Action, BackendHandler, Request};
use evm_fork_db::model::Source;
use evm_fork_db::table::Table;
use evm_fork_db::types::{Address, BlockId, B256, U256};

fn addr(n: u128) -> Address {
    Address { hi: 0, lo: n }
}

fn word(n: u128) -> U256 {
    U256 { hi: 0, lo: n }
}

fn b256_of(h: alloy_primitives::B256) -> B256 {
    B256 {
        hi: u128::from_be_bytes(h.0[..16].try_into().unwrap()),
        lo: u128::from_be_bytes(h.0[16..].try_into().unwrap()),
    }
}

#[test]
fn coalesce_fifty_lookups_into_one_fetch() {
    let pin = BlockId::Number(100);
    let mut h = BackendHandler::new(Some(pin), false);
    let a = addr(0xa);
    let mut fetches = 0;
    for l in 0..50u64 {
        match h.basic(a, l) {
            Action::FetchAccount(x, src) => {
                assert_eq!(x, a);
                assert_eq!(src, Source::Remote(pin));
                fetches += 1;
            }
            Action::Wait => {}
            other => panic!("unexpected action {:?}", other),
        }
    }
    assert_eq!(fetches, 1);
    let out = h.on_account_fetched(a, Ok((word(5), 3, vec![])));
    assert_eq!(out.listeners, (0..50u64).collect::<Vec<u64>>());
    let acc = out.reply.unwrap();
    assert_eq!(acc.balance, word(5));
    assert_eq!(acc.nonce, 3);
    assert_eq!(h.accounts_len(), 1);
}

#[test]
fn storage_miss_then_hit() {
    let mut h = BackendHandler::new(Some(BlockId::Number(7)), false);
    let a = addr(0xa);
    let mut fetches = 0;
    match h.storage(a, word(7), 1) {
        Action::FetchStorage(x, i, src) => {
            assert_eq!((x, i, src), (a, word(7), Source::Remote(BlockId::Number(7))));
            fetches += 1;
        }
        other => panic!("unexpected action {:?}", other),
    }
    let out = h.on_storage_fetched(a, word(7), Ok(word(0x2a)));
    assert_eq!(out.listeners, vec![1]);
    assert_eq!(out.reply, Ok(word(0x2a)));
    match h.storage(a, word(7), 2) {
        Action::Storage(l, v) => assert_eq!((l, v), (2, word(0x2a))),
        other => panic!("unexpected action {:?}", other),
    }
    assert_eq!(fetches, 1);
    assert_eq!(h.storage_len(), 1);
    assert_eq!(h.cached_storage(&a, &word(7)), Some(word(0x2a)));
    assert_eq!(h.cached_storage(&a, &word(8)), None);
}

#[test]
fn failed_fetch_is_not_cached() {
    let mut h = BackendHandler::new(Some(BlockId::Number(1)), false);
    let a = addr(0xa);
    let mut fetches = 0;
    for l in 0..2u64 {
        match h.basic(a, l) {
            Action::FetchAccount(..) => fetches += 1,
            other => panic!("unexpected action {:?}", other),
        }
        let out = h.on_account_fetched(a, Err("boom".to_string()));
        assert_eq!(out.listeners, vec![l]);
        assert_eq!(out.reply, Err(DatabaseError::GetAccount(a, "boom".to_string())));
    }
    assert_eq!(fetches, 2);
    assert_eq!(h.accounts_len(), 0);
}

#[test]
fn missing_block_is_cached_as_empty_hash() {
    let mut h = BackendHandler::new(None, false);
    let mut fetches = 0;
    match h.block_hash(99, 1) {
        Action::FetchBlockHash(n) => {
            assert_eq!(n, 99);
            fetches += 1;
        }
        other => panic!("unexpected action {:?}", other),
    }
    let out = h.on_block_hash_fetched(99, Ok(None));
    assert_eq!(out.reply, Ok(empty_hash()));
    match h.block_hash(99, 2) {
        Action::BlockHash(l, hash) => assert_eq!((l, hash), (2, empty_hash())),
        other => panic!("unexpected action {:?}", other),
    }
    assert_eq!(fetches, 1);
    assert_eq!(h.block_hashes_len(), 1);
}

#[test]
fn local_archive_is_asked_first_then_result_cached() {
    let mut h = BackendHandler::new(Some(BlockId::Number(42)), true);
    let a = addr(0xa);
    match h.basic(a, 1) {
        Action::FetchAccount(x, Source::Local(n, fallback)) => {
            assert_eq!(x, a);
            assert_eq!(n, 42);
            assert_eq!(fallback, BlockId::Number(42));
        }
        other => panic!("unexpected action {:?}", other),
    }
    // the archive could not serve block 42; the remote answer lands
    let out = h.on_account_fetched(a, Ok((word(9), 1, vec![0x60, 0x00])));
    assert!(out.reply.is_ok());
    assert_eq!(h.accounts_len(), 1);
    match h.basic(a, 2) {
        Action::Account(2, acc) => assert_eq!(acc.balance, word(9)),
        other => panic!("unexpected action {:?}", other),
    }
}

#[test]
fn local_archive_needs_a_numbered_pin() {
    let mut h = BackendHandler::new(Some(BlockId::Latest), true);
    match h.basic(addr(1), 1) {
        Action::FetchAccount(_, src) => assert_eq!(src, Source::Remote(BlockId::Latest)),
        other => panic!("unexpected action {:?}", other),
    }
    let mut h = BackendHandler::new(None, false);
    match h.storage(addr(1), word(0), 1) {
        Action::FetchStorage(_, _, src) => assert_eq!(src, Source::Remote(BlockId::Latest)),
        other => panic!("unexpected action {:?}", other),
    }
}

#[test]
fn pin_change_keeps_cache_and_moves_fetches() {
    let mut h = BackendHandler::new(Some(BlockId::Number(1)), false);
    let a = addr(1);
    h.basic(a, 1);
    h.on_account_fetched(a, Ok((word(1), 0, vec![])));
    assert!(matches!(h.on_request(Request::SetPinnedBlock(BlockId::Number(2))), Action::Updated));
    assert_eq!(h.pinned_block(), Some(BlockId::Number(2)));
    assert!(matches!(h.basic(a, 2), Action::Account(2, _)));
    match h.basic(addr(2), 3) {
        Action::FetchAccount(_, src) => assert_eq!(src, Source::Remote(BlockId::Number(2))),
        other => panic!("unexpected action {:?}", other),
    }
}

#[test]
fn code_hash_follows_code() {
    let mut h = BackendHandler::new(None, false);
    h.basic(addr(1), 1);
    let empty = h.on_account_fetched(addr(1), Ok((word(0), 0, vec![]))).reply.unwrap();
    assert_eq!(empty.code_hash, empty_hash());
    assert_eq!(empty_hash(), b256_of(alloy_primitives::keccak256([])));
    let code = vec![0x60u8, 0x80, 0x60, 0x40];
    h.basic(addr(2), 2);
    let full = h.on_account_fetched(addr(2), Ok((word(0), 0, code.clone()))).reply.unwrap();
    assert_eq!(full.code_hash, b256_of(alloy_primitives::keccak256(&code)));
    assert_ne!(full.code_hash, empty_hash());
    let built = AccountInfo::from_parts(word(1), 2, code.clone());
    assert_eq!(built.code_hash, full.code_hash);
    assert_eq!(built.code, code);
}

#[test]
fn separate_keys_fetch_separately() {
    let mut h = BackendHandler::new(None, false);
    assert!(matches!(h.basic(addr(1), 1), Action::FetchAccount(..)));
    assert!(matches!(h.basic(addr(2), 2), Action::FetchAccount(..)));
    assert!(matches!(h.basic(addr(1), 3), Action::Wait));
    assert!(matches!(h.storage(addr(1), word(1), 4), Action::FetchStorage(..)));
    assert!(matches!(h.storage(addr(1), word(2), 5), Action::FetchStorage(..)));
    assert!(matches!(h.storage(addr(1), word(1), 6), Action::Wait));
    assert!(matches!(h.block_hash(1, 7), Action::FetchBlockHash(1)));
    assert!(matches!(h.block_hash(1, 8), Action::Wait));
    let out = h.on_account_fetched(addr(1), Ok((word(0), 0, vec![])));
    assert_eq!(out.listeners, vec![1, 3]);
    let out = h.on_storage_fetched(addr(1), word(1), Err("down".to_string()));
    assert_eq!(out.listeners, vec![4, 6]);
    assert_eq!(out.reply, Err(DatabaseError::GetStorage(addr(1), word(1), "down".to_string())));
    let out = h.on_block_hash_fetched(1, Err("gone".to_string()));
    assert_eq!(out.listeners, vec![7, 8]);
    assert_eq!(out.reply, Err(DatabaseError::GetBlockHash(1, "gone".to_string())));
    let found = B256 { hi: 1, lo: 2 };
    h.block_hash(1, 9);
    let out = h.on_block_hash_fetched(1, Ok(Some(found)));
    assert_eq!(out.reply, Ok(found));
    assert_eq!(h.cached_block_hash(&U256::from_u64(1)), Some(found));
    assert_eq!(h.accounts_len(), 1);
    assert_eq!(h.storage_len(), 0);
}

#[test]
fn completion_without_listeners_still_caches() {
    let mut h = BackendHandler::new(None, false);
    let out = h.on_storage_fetched(addr(3), word(3), Ok(word(4)));
    assert!(out.listeners.is_empty());
    assert_eq!(h.cached_storage(&addr(3), &word(3)), Some(word(4)));
}

#[test]
fn bulk_updates_write_without_fetching() {
    let mut h = BackendHandler::new(None, false);
    let acc = AccountInfo::from_parts(word(10), 1, vec![]);
    let acc2 = AccountInfo::from_parts(word(11), 2, vec![]);
    h.on_request(Request::UpdateAddress(vec![(addr(1), acc), (addr(1), acc2)]));
    assert_eq!(h.accounts_len(), 1);
    assert_eq!(h.cached_account(&addr(1)).unwrap().balance, word(11));
    assert!(matches!(h.basic(addr(1), 1), Action::Account(1, _)));

    let mut slots = Table::new();
    slots.insert(word(1), word(100));
    slots.insert(word(2), word(200));
    h.on_request(Request::UpdateStorage(vec![(addr(5), slots)]));
    assert_eq!(h.storage_len(), 1);
    assert_eq!(h.storage_slots(&addr(5)).len(), 2);
    match h.on_request(Request::Storage(addr(5), word(2), 2)) {
        Action::Storage(2, v) => assert_eq!(v, word(200)),
        other => panic!("unexpected action {:?}", other),
    }

    h.on_request(Request::UpdateBlockHash(vec![(U256::from_u64(3), B256 { hi: 3, lo: 3 })]));
    assert_eq!(h.block_hashes_len(), 1);
    match h.on_request(Request::BlockHash(3, 3)) {
        Action::BlockHash(3, hash) => assert_eq!(hash, B256 { hi: 3, lo: 3 }),
        other => panic!("unexpected action {:?}", other),
    }
    assert_eq!(h.account_addresses(), vec![addr(1)]);
    assert_eq!(h.storage_addresses(), vec![addr(5)]);
    assert_eq!(h.block_hash_keys(), vec![U256::from_u64(3)]);
}

#[test]
fn full_blocks_and_transactions_are_never_cached() {
    let mut h = BackendHandler::new(None, false);
    assert!(matches!(h.on_request(Request::FullBlock(BlockId::Number(5), 1)), Action::FetchFullBlock(BlockId::Number(5), 1)));
    assert!(matches!(h.on_request(Request::FullBlock(BlockId::Number(5), 2)), Action::FetchFullBlock(BlockId::Number(5), 2)));
    let t = B256 { hi: 0, lo: 9 };
    assert!(matches!(h.on_request(Request::Transaction(t, 3)), Action::FetchTransaction(_, 3)));
    assert_eq!(full_block_reply(BlockId::Number(5), Ok(Some("block"))), Ok("block"));
    assert_eq!(full_block_reply::<u8>(BlockId::Number(5), Ok(None)), Err(DatabaseError::BlockNotFound(BlockId::Number(5))));
    assert_eq!(
        full_block_reply::<u8>(BlockId::Latest, Err("x".to_string())),
        Err(DatabaseError::GetFullBlock(BlockId::Latest, "x".to_string()))
    );
    assert_eq!(transaction_reply(t, Ok(Some(7u8))), Ok(7));
    assert_eq!(
        transaction_reply::<u8>(t, Ok(None)),
        Err(DatabaseError::GetTransaction(t, "transaction not found".to_string()))
    );
    assert_eq!(
        transaction_reply::<u8>(t, Err("y".to_string())),
        Err(DatabaseError::GetTransaction(t, "y".to_string()))
    );
}

#[test]
fn requests_name_their_listener() {
    assert_eq!(Request::Basic(addr(1), 4).listener(), Some(4));
    assert_eq!(Request::Storage(addr(1), word(1), 5).listener(), Some(5));
    assert_eq!(Request::BlockHash(1, 6).listener(), Some(6));
    assert_eq!(Request::FullBlock(BlockId::Latest, 7).listener(), Some(7));
    assert_eq!(Request::Transaction(B256 { hi: 0, lo: 0 }, 8).listener(), Some(8));
    assert_eq!(Request::SetPinnedBlock(BlockId::Latest).listener(), None);
    assert_eq!(Request::UpdateBlockHash(vec![]).listener(), None);
}
