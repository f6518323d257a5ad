//! The valuation entry points: a read of the pool's state and one request in,
//! an amount or an error out.
use crate::error::PoolError;
use crate::pool::{
    fee_bits, mint_result, pool_state_valid, redeem_result, swap_result, LPDepositRequest,
    LiquidityPool,
};
use vstd::prelude::*;

verus! {

/// The pool's state as read before an operation: raw reserves, LP supply and
/// each token's decimals.
#[derive(Clone, Copy, Debug)]
pub struct PoolSnapshot {
    pub reserve_a: u64,
    pub reserve_b: u64,
    pub decimals_a: u8,
    pub decimals_b: u8,
    pub lp_supply: u64,
    pub lp_decimals: u8,
}

impl PoolSnapshot {
    /// Either untouched (no reserves, no shares) or fully funded.
    pub open spec fn well_formed(self) -> bool {
        pool_state_valid(self.reserve_a as int, self.reserve_b as int, self.lp_supply as int)
    }

    /// Whether the reserves and the supply are all zero or all non-zero.
    pub fn is_well_formed(&self) -> (r: bool)
        ensures
            r == self.well_formed(),
    {
        (self.reserve_a == 0) == (self.reserve_b == 0) && (self.reserve_a == 0) == (self.lp_supply
            == 0)
    }
}

/// Raw amounts of both tokens to deposit.
#[derive(Clone, Copy, Debug)]
pub struct DepositRequest {
    pub amount_a: u64,
    pub amount_b: u64,
}

/// LP shares to burn.
#[derive(Clone, Copy, Debug)]
pub struct WithdrawalRequest {
    pub lp_amount: u64,
}

/// Which token goes into the pool in a swap.
#[derive(Clone, Copy, Debug, PartialEq, Eq, Structural)]
pub enum SwapDirection {
    AToB,
    BToA,
}

/// A raw amount of the input token and the direction of the swap.
#[derive(Clone, Copy, Debug)]
pub struct SwapRequest {
    pub amount_in: u64,
    pub direction: SwapDirection,
}

/// The deposit as the pool's rules see it.
pub open spec fn deposit_of(snapshot: PoolSnapshot, request: DepositRequest) -> LPDepositRequest {
    LPDepositRequest {
        token_a_balance: snapshot.reserve_a,
        token_a_decimals: snapshot.decimals_a,
        token_b_balance: snapshot.reserve_b,
        token_b_decimals: snapshot.decimals_b,
        lp_token_balance: snapshot.lp_supply,
        lp_token_decimals: snapshot.lp_decimals,
        token_a_amount: request.amount_a,
        token_b_amount: request.amount_b,
    }
}

/// Input reserve, input decimals, output reserve and output decimals of a
/// swap in `direction`.
pub open spec fn swap_sides(snapshot: PoolSnapshot, direction: SwapDirection) -> (u64, u8, u64, u8) {
    match direction {
        SwapDirection::AToB => (
            snapshot.reserve_a,
            snapshot.decimals_a,
            snapshot.reserve_b,
            snapshot.decimals_b,
        ),
        SwapDirection::BToA => (
            snapshot.reserve_b,
            snapshot.decimals_b,
            snapshot.reserve_a,
            snapshot.decimals_a,
        ),
    }
}

/// The output of a swap request at the pool's fee rate; a pool whose reserves
/// and supply disagree is rejected first.
pub open spec fn swap_out_result(snapshot: PoolSnapshot, request: SwapRequest) -> Result<u64, PoolError> {
    let (reserve_in, decimals_in, reserve_out, decimals_out) = swap_sides(snapshot, request.direction);
    if !snapshot.well_formed() {
        Err(PoolError::InvalidPoolState)
    } else {
        swap_result(
            reserve_in as int,
            decimals_in as nat,
            reserve_out as int,
            decimals_out as nat,
            request.amount_in as int,
            fee_bits(),
        )
    }
}

/// LP shares to mint for a deposit.
pub fn mint_amount(snapshot: &PoolSnapshot, request: &DepositRequest) -> (r: Result<u64, PoolError>)
    ensures
        r == mint_result(deposit_of(*snapshot, *request)),
{
    LiquidityPool::calculate_lp_amount_to_mint(
        LPDepositRequest {
            token_a_balance: snapshot.reserve_a,
            token_a_decimals: snapshot.decimals_a,
            token_b_balance: snapshot.reserve_b,
            token_b_decimals: snapshot.decimals_b,
            lp_token_balance: snapshot.lp_supply,
            lp_token_decimals: snapshot.lp_decimals,
            token_a_amount: request.amount_a,
            token_b_amount: request.amount_b,
        },
    )
}

/// Token A and token B amounts returned for burned shares.
pub fn redeem_amounts(snapshot: &PoolSnapshot, request: &WithdrawalRequest) -> (r: Result<
    (u64, u64),
    PoolError,
>)
    ensures
        r == redeem_result(
            request.lp_amount as int,
            snapshot.lp_supply as int,
            snapshot.reserve_a as int,
            snapshot.reserve_b as int,
        ),
        r matches Ok((a, b)) ==> a <= snapshot.reserve_a && b <= snapshot.reserve_b,
{
    let r = LiquidityPool::calculate_token_amount_to_remove(
        request.lp_amount,
        snapshot.lp_supply,
        snapshot.reserve_a,
        snapshot.reserve_b,
    );
    proof {
        if r is Ok {
            crate::laws::lemma_redeem_bounded(
                request.lp_amount as int,
                snapshot.lp_supply as int,
                snapshot.reserve_a as int,
                snapshot.reserve_b as int,
            );
        }
    }
    r
}

/// Output-token amount for a swap; the input and output reserves follow from
/// the direction alone.
pub fn swap_out(snapshot: &PoolSnapshot, request: &SwapRequest) -> (r: Result<u64, PoolError>)
    ensures
        r == swap_out_result(*snapshot, *request),
        snapshot.well_formed() && request.amount_in == 0 ==> r == Ok::<u64, PoolError>(0),
        r matches Ok(out) ==> out <= swap_sides(*snapshot, request.direction).2,
{
    if !snapshot.is_well_formed() {
        return Err(PoolError::InvalidPoolState);
    }
    match request.direction {
        SwapDirection::AToB => LiquidityPool::calculate_swap(
            snapshot.reserve_a,
            snapshot.decimals_a,
            snapshot.reserve_b,
            snapshot.decimals_b,
            request.amount_in,
        ),
        SwapDirection::BToA => LiquidityPool::calculate_swap(
            snapshot.reserve_b,
            snapshot.decimals_b,
            snapshot.reserve_a,
            snapshot.decimals_a,
            request.amount_in,
        ),
    }
}

} // verus!
