use vstd::prelude::*;

use crate::types::{B256, U256};

verus! {

/// What an account holds, in the form the contracts speak of.
pub struct AccountView {
    pub balance: U256,
    pub nonce: u64,
    pub code: Seq<u8>,
    pub code_hash: B256,
}

/// The Keccak-256 digest of a byte string.
pub uninterp spec fn keccak256_of(b: Seq<u8>) -> B256;

/// Relies on `alloy_primitives::keccak256`: the Keccak-256 digest of the
/// bytes, which depends on the bytes alone.
#[verifier::external_body]
fn keccak256(b: &Vec<u8>) -> (r: B256)
    ensures
        r == keccak256_of(b@),
{
    let h = alloy_primitives::keccak256(b);
    let (hi, lo) = h.0.split_at(16);
    B256 { hi: u128::from_be_bytes(hi.try_into().unwrap()), lo: u128::from_be_bytes(lo.try_into().unwrap()) }
}

pub const EMPTY_HASH_HI: u128 = 0xc5d2460186f7233c927e7db2dcc703c0;

pub const EMPTY_HASH_LO: u128 = 0xe500b653ca82273b7bfad8045d85a470;

/// The Keccak-256 digest of the empty byte string: the code hash of an
/// account without code, and the hash cached for a block that does not exist.
pub open spec fn empty_hash_spec() -> B256 {
    B256 { hi: EMPTY_HASH_HI, lo: EMPTY_HASH_LO }
}

/// The Keccak-256 digest of the empty byte string.
pub fn empty_hash() -> (r: B256)
    ensures
        r == empty_hash_spec(),
{
    B256 { hi: EMPTY_HASH_HI, lo: EMPTY_HASH_LO }
}

/// The code hash of an account whose code is `code`.
pub open spec fn code_hash_of(code: Seq<u8>) -> B256 {
    if code.len() == 0 {
        empty_hash_spec()
    } else {
        keccak256_of(code)
    }
}

/// The account made of a fetched balance, nonce and code.
pub open spec fn account_of(balance: U256, nonce: u64, code: Seq<u8>) -> AccountView {
    AccountView { balance, nonce, code, code_hash: code_hash_of(code) }
}

/// An account: its balance, nonce, code and the hash of that code.
#[derive(Clone, Debug, PartialEq, Eq)]
pub struct AccountInfo {
    pub balance: U256,
    pub nonce: u64,
    pub code: Vec<u8>,
    pub code_hash: B256,
}

impl View for AccountInfo {
    type V = AccountView;

    open spec fn view(&self) -> AccountView {
        AccountView {
            balance: self.balance,
            nonce: self.nonce,
            code: self.code@,
            code_hash: self.code_hash,
        }
    }
}

impl AccountInfo {
    /// Builds the account that a fetch of balance, nonce and code describes:
    /// the code hash is that of the empty string where the code is empty,
    /// and the Keccak-256 digest of the code otherwise.
    pub fn from_parts(balance: U256, nonce: u64, code: Vec<u8>) -> (r: AccountInfo)
        ensures
            r@ == account_of(balance, nonce, code@),
    {
        let code_hash = if code.len() == 0 {
            empty_hash()
        } else {
            keccak256(&code)
        };
        AccountInfo { balance, nonce, code, code_hash }
    }

    /// A copy with the same contents.
    pub fn duplicate(&self) -> (r: AccountInfo)
        ensures
            r@ == self@,
    {
        let code = self.code.clone();
        assert(code@ =~= self.code@);
        AccountInfo { balance: self.balance, nonce: self.nonce, code, code_hash: self.code_hash }
    }
}

} // verus!
