use vstd::prelude::*;

use crate::types::Address;

verus! {

/// The exchange family that a pool belongs to.
#[derive(Clone, Copy, Debug, PartialEq, Eq, Structural)]
pub enum Venue {
    UniswapV2,
    UniswapV3,
}

/// A liquidity pool found on chain: its address, its two tokens, its fee in
/// hundredths of a basis point, its venue, and the block it was created in.
#[derive(Clone, Copy, Debug, PartialEq, Eq, Structural)]
pub struct Pool {
    pub id: Address,
    pub token0: Address,
    pub token1: Address,
    pub fee: u64,
    pub venue: Venue,
    pub block: u64,
}

} // verus!
