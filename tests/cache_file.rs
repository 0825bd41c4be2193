use evm_fork_db::account::AccountInfo;
use evm_fork_db::cache_file::{decode_cache, encode_cache, parse_cache};
use evm_fork_db::handler::{Action, BackendHandler, Request};
use evm_fork_db::table::Table;
use evm_fork_db::types::{Address, BlockId, B256, U256};

fn addr(n: u128) -> Address {
    Address { hi: 0, lo: n }
}

fn word(n: u128) -> U256 {
    U256 { hi: 0, lo: n }
}

fn flush(h: &BackendHandler) -> Vec<u8> {
    encode_cache(&h.snapshot_accounts(), &h.snapshot_storage(), &h.snapshot_block_hashes())
}

#[test]
fn flush_then_reload_keeps_the_cache() {
    let mut h = BackendHandler::new(Some(BlockId::Number(10)), false);
    for (i, code) in [vec![], vec![0x60u8, 0x00], vec![0xffu8]].into_iter().enumerate() {
        let a = addr(i as u128 + 1);
        assert!(matches!(h.basic(a, i as u64), Action::FetchAccount(..)));
        h.on_account_fetched(a, Ok((word(100 + i as u128), i as u64, code)));
    }
    for n in [7u64, 8] {
        h.block_hash(n, 10 + n);
        h.on_block_hash_fetched(n, Ok(Some(B256 { hi: n as u128, lo: u128::MAX })));
    }
    assert_eq!((h.accounts_len(), h.storage_len(), h.block_hashes_len()), (3, 0, 2));
    let bytes = flush(&h);
    let back = decode_cache(Some(BlockId::Number(10)), false, &bytes).expect("a cache file");
    assert_eq!((back.accounts_len(), back.storage_len(), back.block_hashes_len()), (3, 0, 2));
    for i in 1..=3u128 {
        assert_eq!(back.cached_account(&addr(i)), h.cached_account(&addr(i)));
    }
    assert_eq!(back.cached_block_hash(&U256::from_u64(8)), Some(B256 { hi: 8, lo: u128::MAX }));
    assert_eq!(flush(&back).len(), bytes.len());
}

#[test]
fn flush_then_reload_keeps_storage() {
    let mut h = BackendHandler::new(None, false);
    h.storage(addr(1), word(1), 1);
    h.on_storage_fetched(addr(1), word(1), Ok(word(11)));
    h.storage(addr(1), word(2), 2);
    h.on_storage_fetched(addr(1), word(2), Ok(U256 { hi: u128::MAX, lo: 5 }));
    h.storage(addr(2), word(1), 3);
    h.on_storage_fetched(addr(2), word(1), Ok(word(0)));
    let back = decode_cache(None, false, &flush(&h)).unwrap();
    assert_eq!(back.storage_len(), 2);
    assert_eq!(back.cached_storage(&addr(1), &word(2)), Some(U256 { hi: u128::MAX, lo: 5 }));
    assert_eq!(back.cached_storage(&addr(2), &word(1)), Some(word(0)));
    assert_eq!(back.accounts_len(), 0);
}

#[test]
fn cache_text_is_exact() {
    let acc = AccountInfo::from_parts(word(1), 2, vec![0xab]);
    let bytes = encode_cache(&vec![(Address { hi: 0x12, lo: 0x34 }, acc.clone())], &vec![], &vec![(word(3), B256 { hi: 0, lo: 4 })]);
    let text = String::from_utf8(bytes.clone()).unwrap();
    let z = |n: usize| "0".repeat(n);
    let expected = format!(
        "{{\"accounts\":{{\"0x{}12{}34\":{{\"balance\":\"0x{}1\",\"nonce\":\"0x{}2\",\"code\":\"0xab\",\"code_hash\":\"0x{:032x}{:032x}\"}}}},\"storage\":{{}},\"block_hashes\":{{\"0x{}3\":\"0x{}4\"}}}}",
        z(6), z(30), z(63), z(15), acc.code_hash.hi, acc.code_hash.lo, z(63), z(63)
    );
    assert_eq!(text, expected);
    let (a, s, h) = parse_cache(&bytes).unwrap();
    assert_eq!(a, vec![(Address { hi: 0x12, lo: 0x34 }, acc)]);
    assert!(s.is_empty());
    assert_eq!(h, vec![(word(3), B256 { hi: 0, lo: 4 })]);
}

#[test]
fn empty_cache_round_trips() {
    let h = BackendHandler::new(None, true);
    let bytes = flush(&h);
    assert_eq!(String::from_utf8(bytes.clone()).unwrap(), "{\"accounts\":{},\"storage\":{},\"block_hashes\":{}}");
    let back = decode_cache(None, true, &bytes).unwrap();
    assert_eq!((back.accounts_len(), back.storage_len(), back.block_hashes_len()), (0, 0, 0));
}

#[test]
fn malformed_files_are_refused() {
    let mut h = BackendHandler::new(None, false);
    h.on_request(Request::UpdateBlockHash(vec![(word(1), B256 { hi: 1, lo: 1 })]));
    let good = flush(&h);
    assert!(decode_cache(None, false, &good).is_some());
    let mut truncated = good.clone();
    truncated.pop();
    assert!(decode_cache(None, false, &truncated).is_none());
    let mut trailing = good.clone();
    trailing.push(b' ');
    assert!(decode_cache(None, false, &trailing).is_none());
    let upper: Vec<u8> = good.iter().map(|c| if *c == b'0' { b'A' } else { *c }).collect();
    assert!(parse_cache(&upper).is_none());
    assert!(parse_cache(&b"{}".to_vec()).is_none());
    assert!(parse_cache(&Vec::new()).is_none());
}

#[test]
fn reloaded_cache_answers_without_fetching() {
    let mut slots = Table::new();
    slots.insert(word(7), word(0x2a));
    let mut h = BackendHandler::new(None, false);
    h.update_storage(vec![(addr(9), slots)]);
    let mut back = decode_cache(None, false, &flush(&h)).unwrap();
    match back.storage(addr(9), word(7), 1) {
        Action::Storage(1, v) => assert_eq!(v, word(0x2a)),
        other => panic!("unexpected action {:?}", other),
    }
}
