//! Properties that relate several valuations.
use crate::fixed_point::{
    div_bits, lemma_div_bits_by_int, lemma_div_bits_monotonic, lemma_mul_bits_monotonic,
    lemma_pow10_bound, mul_bits, one, pow10, scaled_bits, MAX_DECIMALS,
};
use crate::pool::{
    lemma_new_out_bounded, lemma_scaled_positive, mint_result, redeem_result, standard_mint,
    swap_in_bits, swap_new_out_bits, swap_out_bits, swap_result,
};
use crate::valuation::{deposit_of, DepositRequest, PoolSnapshot};
use vstd::prelude::*;

verus! {

/// A withdrawal never pays out more than either reserve.
pub proof fn lemma_redeem_bounded(lp_amount: int, supply: int, reserve_a: int, reserve_b: int)
    requires
        0 <= lp_amount,
        0 <= reserve_a <= u64::MAX,
        0 <= reserve_b <= u64::MAX,
        redeem_result(lp_amount, supply, reserve_a, reserve_b) is Ok,
    ensures
        redeem_result(lp_amount, supply, reserve_a, reserve_b) matches Ok((a, b)) ==> a
            <= reserve_a && b <= reserve_b,
{
    lemma_share_of_reserve(lp_amount, supply, reserve_a);
    lemma_share_of_reserve(lp_amount, supply, reserve_b);
}

/// `reserve * lp / supply` lies between zero and `reserve` for `lp <= supply`.
proof fn lemma_share_of_reserve(lp_amount: int, supply: int, reserve: int)
    requires
        0 <= lp_amount <= supply,
        0 < supply,
        0 <= reserve,
    ensures
        0 <= reserve * lp_amount / supply <= reserve,
{
    assert(0 <= reserve * lp_amount <= supply * reserve) by (nonlinear_arith)
        requires
            0 <= lp_amount <= supply,
            0 <= reserve,
    ;
    vstd::arithmetic::div_mod::lemma_multiply_divide_le(reserve * lp_amount, supply, reserve);
    vstd::arithmetic::div_mod::lemma_div_pos_is_pos(reserve * lp_amount, supply);
}

/// Raising the fee rate never raises the output of a swap: where a swap
/// succeeds at the lower rate it succeeds at the higher one too, with an
/// output no larger. Fee rates are bits of fixed-point numbers from zero to one.
pub proof fn lemma_swap_fee_monotonic(
    reserve_in: u64,
    decimals_in: u8,
    reserve_out: u64,
    decimals_out: u8,
    amount: u64,
    fee_low: int,
    fee_high: int,
)
    requires
        0 <= fee_low <= fee_high <= one(),
    ensures
        swap_result(
            reserve_in as int,
            decimals_in as nat,
            reserve_out as int,
            decimals_out as nat,
            amount as int,
            fee_low,
        ) matches Ok(out_low) ==> (swap_result(
            reserve_in as int,
            decimals_in as nat,
            reserve_out as int,
            decimals_out as nat,
            amount as int,
            fee_high,
        ) matches Ok(out_high) && out_high <= out_low),
{
    if amount > 0 && reserve_in > 0 && reserve_out > 0 && decimals_in <= MAX_DECIMALS
        && decimals_out <= MAX_DECIMALS && amount <= i64::MAX {
        let din = decimals_in as nat;
        let dout = decimals_out as nat;
        lemma_pow10_bound(din);
        lemma_pow10_bound(dout);
        let rin = scaled_bits(reserve_in as int, din);
        let rout = scaled_bits(reserve_out as int, dout);
        lemma_scaled_positive(reserve_in as int, din);
        vstd::arithmetic::div_mod::lemma_div_pos_is_pos(reserve_out * one(), pow10(dout) as int);
        let a = amount * one();
        let after_low = mul_bits(a, one() - fee_low);
        let after_high = mul_bits(a, one() - fee_high);
        lemma_mul_bits_monotonic(a, a, one() - fee_high, one() - fee_low);
        let scale_in = pow10(din) * one();
        lemma_div_bits_monotonic(after_high, after_low, scale_in, scale_in);
        let ain_low = swap_in_bits(amount as int, din, fee_low);
        let ain_high = swap_in_bits(amount as int, din, fee_high);
        assert(0 <= ain_high <= ain_low);
        let k = mul_bits(rin, rout);
        lemma_mul_bits_monotonic(0, rin, 0, rout);
        lemma_div_bits_monotonic(k, k, rin + ain_low, rin + ain_high);
        let new_out_low = swap_new_out_bits(rin, rout, ain_low);
        let new_out_high = swap_new_out_bits(rin, rout, ain_high);
        lemma_new_out_bounded(rin, rout, ain_low);
        lemma_new_out_bounded(rin, rout, ain_high);
        let scale_out = pow10(dout) * one();
        lemma_mul_bits_monotonic(rout - new_out_high, rout - new_out_low, scale_out, scale_out);
        let out_low = swap_out_bits(rout, new_out_low, dout);
        let out_high = swap_out_bits(rout, new_out_high, dout);
        assert(0 <= out_high <= out_low);
        vstd::arithmetic::div_mod::lemma_div_is_ordered(out_high, out_low, one());
    }
}

/// Depositing and at once withdrawing the shares minted, at the reserves and
/// supply that the deposit left, never returns more of either token than was
/// deposited.
pub proof fn lemma_deposit_withdraw_round_trip(snapshot: PoolSnapshot, request: DepositRequest)
    requires
        mint_result(deposit_of(snapshot, request)) is Ok,
        snapshot.reserve_a + request.amount_a <= u64::MAX,
        snapshot.reserve_b + request.amount_b <= u64::MAX,
        snapshot.lp_supply + mint_result(deposit_of(snapshot, request))->Ok_0 <= u64::MAX,
    ensures
        ({
            let minted = mint_result(deposit_of(snapshot, request))->Ok_0;
            redeem_result(
                minted as int,
                snapshot.lp_supply + minted,
                snapshot.reserve_a + request.amount_a,
                snapshot.reserve_b + request.amount_b,
            ) matches Ok((a, b)) ==> a <= request.amount_a && b <= request.amount_b
        }),
{
    let m = mint_result(deposit_of(snapshot, request))->Ok_0 as int;
    let s = snapshot.lp_supply as int;
    if s + m > 0 {
        lemma_round_trip_side(m, s, snapshot.reserve_a as int, request.amount_a as int);
        lemma_round_trip_side(m, s, snapshot.reserve_b as int, request.amount_b as int);
        if snapshot.reserve_a > 0 {
            let x = request.amount_a as int;
            let y = request.amount_b as int;
            let ra = snapshot.reserve_a as int;
            let rb = snapshot.reserve_b as int;
            assert(m == standard_mint(s, x, ra, y, rb));
            lemma_floor_times(s * x, ra);
            lemma_floor_times(s * y, rb);
            lemma_round_trip_funded(m, s, ra, x);
            lemma_round_trip_funded(m, s, rb, y);
        }
    }
}

/// `(n / d) * d <= n`.
proof fn lemma_floor_times(n: int, d: int)
    requires
        0 <= n,
        0 < d,
    ensures
        (n / d) * d <= n,
{
    vstd::arithmetic::div_mod::lemma_fundamental_div_mod(n, d);
    vstd::arithmetic::div_mod::lemma_mod_pos_bound(n, d);
    assert((n / d) * d == d * (n / d)) by (nonlinear_arith);
}

/// One token's side of the round trip into an empty pool: the deposit is the
/// whole reserve, and the shares are a part of the supply.
proof fn lemma_round_trip_side(m: int, s: int, reserve: int, x: int)
    requires
        0 <= m,
        0 <= s,
        s + m > 0,
        0 <= x,
        0 <= reserve,
    ensures
        reserve == 0 ==> (reserve + x) * m / (s + m) <= x,
{
    if reserve == 0 {
        assert((reserve + x) * m == x * m);
        assert(x * m <= (s + m) * x) by (nonlinear_arith)
            requires
                0 <= s,
                0 <= x,
                0 <= m,
        ;
        vstd::arithmetic::div_mod::lemma_multiply_divide_le(x * m, s + m, x);
    }
}

/// One token's side of the round trip into a funded pool: shares no more
/// than the supply's part `s * x / reserve` buy back no more than `x`.
proof fn lemma_round_trip_funded(m: int, s: int, reserve: int, x: int)
    requires
        0 <= m,
        0 <= s,
        s + m > 0,
        0 <= x,
        0 < reserve,
        m <= (s * x) / reserve,
        ((s * x) / reserve) * reserve <= s * x,
    ensures
        (reserve + x) * m / (s + m) <= x,
{
    assert(m * reserve <= s * x) by (nonlinear_arith)
        requires
            0 <= m <= (s * x) / reserve,
            ((s * x) / reserve) * reserve <= s * x,
            0 < reserve,
    ;
    assert((reserve + x) * m <= (s + m) * x) by (nonlinear_arith)
        requires
            m * reserve <= s * x,
    ;
    vstd::arithmetic::div_mod::lemma_multiply_divide_le((reserve + x) * m, s + m, x);
}

/// With no fee, a swap keeps the product of the reserves in whole tokens up
/// to truncation: the input enters as the raw amount in whole tokens, the
/// product after the swap is at most the product before, and falls short of
/// it only by the rounding of one multiplication and one division.
pub proof fn lemma_swap_product_kept(
    reserve_in: u64,
    decimals_in: u8,
    reserve_out: u64,
    decimals_out: u8,
    amount: u64,
)
    requires
        reserve_in > 0,
        decimals_in <= MAX_DECIMALS,
        decimals_out <= MAX_DECIMALS,
    ensures
        ({
            let rin = scaled_bits(reserve_in as int, decimals_in as nat);
            let rout = scaled_bits(reserve_out as int, decimals_out as nat);
            let ain = swap_in_bits(amount as int, decimals_in as nat, 0);
            let new_in = rin + ain;
            let new_out = swap_new_out_bits(rin, rout, ain);
            &&& ain == scaled_bits(amount as int, decimals_in as nat)
            &&& new_in * new_out <= rin * rout
            &&& rin * rout < new_in * new_out + new_in + one()
        }),
{
    let din = decimals_in as nat;
    let dout = decimals_out as nat;
    lemma_pow10_bound(din);
    lemma_pow10_bound(dout);
    let a = amount * one();
    vstd::arithmetic::div_mod::lemma_div_by_multiple(a, one());
    assert(mul_bits(a, one()) == a);
    lemma_div_bits_by_int(a, pow10(din) as int);
    let rin = scaled_bits(reserve_in as int, din);
    let rout = scaled_bits(reserve_out as int, dout);
    lemma_scaled_positive(reserve_in as int, din);
    vstd::arithmetic::div_mod::lemma_div_pos_is_pos(reserve_out * one(), pow10(dout) as int);
    let ain = swap_in_bits(amount as int, din, 0);
    vstd::arithmetic::div_mod::lemma_div_pos_is_pos(a, pow10(din) as int);
    let new_in = rin + ain;
    let k = mul_bits(rin, rout);
    assert(rin * rout >= 0) by (nonlinear_arith)
        requires
            rin >= 1,
            rout >= 0,
    ;
    vstd::arithmetic::div_mod::lemma_fundamental_div_mod(rin * rout, one());
    vstd::arithmetic::div_mod::lemma_mod_pos_bound(rin * rout, one());
    vstd::arithmetic::div_mod::lemma_div_pos_is_pos(rin * rout, one());
    let new_out = swap_new_out_bits(rin, rout, ain);
    assert(k * one() >= 0) by (nonlinear_arith)
        requires
            k >= 0,
    ;
    vstd::arithmetic::div_mod::lemma_fundamental_div_mod(k * one(), new_in);
    vstd::arithmetic::div_mod::lemma_mod_pos_bound(k * one(), new_in);
    assert(new_out == div_bits(k, new_in));
    assert(new_in * new_out <= rin * rout && rin * rout < new_in * new_out + new_in + one())
        by (nonlinear_arith)
        requires
            rin * rout == one() * k + (rin * rout) % one(),
            0 <= (rin * rout) % one() < one(),
            k * one() == new_in * new_out + (k * one()) % new_in,
            0 <= (k * one()) % new_in < new_in,
    ;
}

} // verus!
