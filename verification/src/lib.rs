//! A single-sided liquidity pool that exchanges a staked, yield-bearing token
//! for its underlying unstaked token at a fixed price, charging an exit fee
//! that varies with how far the pool's underlying reserve sits from its
//! configured liquidity target.
//!
//! All quantities are fixed-point unsigned integers: a real value `v` is
//! stored as `v * FIXED_POINT_SCALE`, truncated.

pub mod fee;
pub mod pool;
