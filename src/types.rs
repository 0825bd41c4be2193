use vstd::prelude::*;

verus! {

/// Types whose values can be compared for equality by an executable call.
pub trait Key: Copy + Sized {
    fn same(&self, other: &Self) -> (r: bool)
        ensures
            r == (*self == *other),
    ;
}

impl Key for u64 {
    fn same(&self, other: &Self) -> (r: bool) {
        *self == *other
    }
}

/// A 20-byte account address, held as its upper 4 bytes and lower 16 bytes
/// (big-endian).
#[derive(Clone, Copy, Debug, PartialEq, Eq, Hash, Structural)]
pub struct Address {
    pub hi: u32,
    pub lo: u128,
}

impl Key for Address {
    fn same(&self, other: &Self) -> (r: bool) {
        self.hi == other.hi && self.lo == other.lo
    }
}

/// A 256-bit unsigned integer, held as its upper and lower 128 bits.
#[derive(Clone, Copy, Debug, PartialEq, Eq, Hash, Structural)]
pub struct U256 {
    pub hi: u128,
    pub lo: u128,
}

impl Key for U256 {
    fn same(&self, other: &Self) -> (r: bool) {
        self.hi == other.hi && self.lo == other.lo
    }
}

impl U256 {
    pub open spec fn spec_from_u64(n: u64) -> U256 {
        U256 { hi: 0, lo: n as u128 }
    }

    /// The 256-bit value of a 64-bit number.
    pub fn from_u64(n: u64) -> (r: U256)
        ensures
            r == U256::spec_from_u64(n),
    {
        U256 { hi: 0, lo: n as u128 }
    }

    /// Zero.
    pub fn zero() -> (r: U256)
        ensures
            r == (U256 { hi: 0, lo: 0 }),
    {
        U256 { hi: 0, lo: 0 }
    }
}

/// A 32-byte hash, held as its upper and lower 16 bytes (big-endian).
#[derive(Clone, Copy, Debug, PartialEq, Eq, Hash, Structural)]
pub struct B256 {
    pub hi: u128,
    pub lo: u128,
}

} // verus!

verus! {

/// A block selector: by number, by hash, or the chain's latest block.
#[derive(Clone, Copy, Debug, PartialEq, Eq, Hash, Structural)]
pub enum BlockId {
    Number(u64),
    Hash(B256),
    Latest,
}

/// A storage location: an account's address and a slot index.
#[derive(Clone, Copy, Debug, PartialEq, Eq, Hash, Structural)]
pub struct SlotKey {
    pub address: Address,
    pub slot: U256,
}

impl Key for SlotKey {
    fn same(&self, other: &Self) -> (r: bool) {
        self.address.same(&other.address) && self.slot.same(&other.slot)
    }
}

} // verus!
