//! Valuation core of a two-token constant-product liquidity pool: LP shares
//! minted for a deposit, tokens returned for burned shares, and the output of
//! a swap, all in deterministic fixed-point or exact integer arithmetic.
pub mod error;
pub mod fixed_point;

pub use error::PoolError;
pub use fixed_point::FixedPoint;
pub mod pool;

pub use pool::{LPDepositRequest, LiquidityPool, TokenId};
pub mod valuation;
pub mod laws;
pub mod instruction;

pub use valuation::{
    mint_amount, redeem_amounts, swap_out, DepositRequest, PoolSnapshot, SwapDirection,
    SwapRequest, WithdrawalRequest,
};
