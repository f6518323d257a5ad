use vstd::prelude::*;

verus! {

/// The ways a valuation can fail.
#[derive(Clone, Copy, Debug, PartialEq, Eq, Structural)]
pub enum PoolError {
    /// One reserve is zero while the other is not.
    InvalidPoolState,
    /// The operation needs a non-zero reserve or supply that is zero.
    EmptyPool,
    /// Both deposited amounts are zero.
    ZeroDeposit,
    /// More shares are burned than exist.
    InsufficientShares,
    /// A value leaves the range of the fixed-point type or of `u64`.
    ArithmeticOverflow,
    /// A fixed-point division by zero.
    DivisionByZero,
}

} // verus!
