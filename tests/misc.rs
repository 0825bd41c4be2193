use evm_fork_db::client::{basic_result, code_by_hash, send_failed, settle};
use evm_fork_db::error::DatabaseError;
use evm_fork_db::mode::BlockingMode;
use evm_fork_db::pool::Venue;
use evm_fork_db::range::get_block_range;
use evm_fork_db::types::{Address, B256};

#[test]
fn block_range_chunks() {
    assert_eq!(get_block_range(0, 25, 10), vec![(0, 9), (10, 19), (20, 25)]);
    assert_eq!(get_block_range(5, 5, 10), vec![(5, 5)]);
    assert_eq!(get_block_range(1, 20, 10), vec![(1, 10), (11, 20)]);
    assert_eq!(get_block_range(6, 5, 10), vec![]);
    assert_eq!(get_block_range(0, 2, 1), vec![(0, 0), (1, 1), (2, 2)]);
}

#[test]
fn block_range_at_the_top_of_u64() {
    assert_eq!(get_block_range(u64::MAX - 2, u64::MAX, 2), vec![(u64::MAX - 2, u64::MAX - 1), (u64::MAX, u64::MAX)]);
    assert_eq!(get_block_range(0, u64::MAX, u64::MAX), vec![(0, u64::MAX - 1), (u64::MAX, u64::MAX)]);
}

#[test]
fn blocking_mode_defaults_to_block_in_place() {
    assert_eq!(BlockingMode::default(), BlockingMode::BlockInPlace);
    assert!(BlockingMode::BlockInPlace.needs_runtime_hook());
    assert!(!BlockingMode::Block.needs_runtime_hook());
    assert_ne!(Venue::UniswapV2, Venue::UniswapV3);
}

#[test]
fn replies_and_transport_errors() {
    assert_eq!(settle::<u8>(Some(Ok(3))), Ok(3));
    assert!(matches!(settle::<u8>(None), Err(DatabaseError::Transport(_))));
    assert!(matches!(send_failed(), DatabaseError::Transport(_)));
    assert!(matches!(basic_result(None), Err(DatabaseError::Transport(_))));
    let e = DatabaseError::GetAccount(Address { hi: 0, lo: 1 }, "x".to_string());
    assert_eq!(basic_result(Some(Err(e.clone()))), Err(e));
    let h = B256 { hi: 1, lo: 1 };
    assert_eq!(code_by_hash(h), Err(DatabaseError::MissingCode(h)));
}
