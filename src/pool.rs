//! The pool's valuation rules: LP shares minted for a deposit, tokens paid out
//! for burned shares, and the output of a constant-product swap.
use crate::error::PoolError;
use crate::fixed_point::{
    div_bits, fits, floor_sqrt, lemma_div_bits_by_int, lemma_floor_sqrt, lemma_floor_sqrt_unique,
    lemma_mul_bits_shrinks, lemma_pow10_bound, lemma_pow10_monotonic, mul_bits, one, pow10,
    pow10_u64, scaled_bits, FixedPoint, MAX_DECIMALS,
};
use vstd::prelude::*;

verus! {

/// The trading fee, as a fraction: three parts in a thousand.
pub const FEE_NUMERATOR: u64 = 3;

/// The denominator of the trading fee.
pub const FEE_DENOMINATOR: u64 = 1000;

/// Bits of the trading fee, rounded down.
pub open spec fn fee_bits() -> int {
    FEE_NUMERATOR * one() / (FEE_DENOMINATOR as int)
}

/// The 32-byte identifier of a token mint or an account.
#[derive(Clone, Copy, Debug)]
pub struct TokenId {
    pub bytes: [u8; 32],
}

/// `a` comes before `b` in lexicographic byte order.
pub open spec fn bytes_lt(a: Seq<u8>, b: Seq<u8>) -> bool {
    exists|i: int|
        0 <= i < a.len() && i < b.len() && a.subrange(0, i) == b.subrange(0, i) && #[trigger] a[i]
            < b[i]
}

impl TokenId {
    /// Whether `self` comes before `other` in byte order.
    pub fn lt(&self, other: &TokenId) -> (r: bool)
        ensures
            r == bytes_lt(self.bytes@, other.bytes@),
    {
        let mut i: usize = 0;
        while i < 32
            invariant
                0 <= i <= 32,
                self.bytes@.len() == 32,
                other.bytes@.len() == 32,
                self.bytes@.subrange(0, i as int) == other.bytes@.subrange(0, i as int),
            decreases 32 - i,
        {
            let x = self.bytes[i];
            let y = other.bytes[i];
            if x != y {
                proof {
                    assert forall|j: int|
                        0 <= j < 32 && self.bytes@.subrange(0, j) == other.bytes@.subrange(
                            0,
                            j,
                        ) && #[trigger] self.bytes@[j] < other.bytes@[j] implies j == i by {
                        if j < i {
                            assert(self.bytes@.subrange(0, i as int)[j] == self.bytes@[j]);
                            assert(other.bytes@.subrange(0, i as int)[j] == other.bytes@[j]);
                        } else if j > i {
                            assert(self.bytes@.subrange(0, j)[i as int] == self.bytes@[i as int]);
                            assert(other.bytes@.subrange(0, j)[i as int] == other.bytes@[i as int]);
                        }
                    }
                    if x < y {
                        assert(bytes_lt(self.bytes@, other.bytes@));
                    }
                }
                return x < y;
            }
            proof {
                assert(self.bytes@.subrange(0, i + 1) =~= self.bytes@.subrange(0, i as int).push(
                    x,
                ));
                assert(other.bytes@.subrange(0, i + 1) =~= other.bytes@.subrange(
                    0,
                    i as int,
                ).push(y));
            }
            i = i + 1;
        }
        proof {
            assert(self.bytes@ =~= other.bytes@) by {
                assert(self.bytes@.subrange(0, 32) =~= self.bytes@);
                assert(other.bytes@.subrange(0, 32) =~= other.bytes@);
            }
        }
        false
    }
}

/// The account that identifies a pool: its two token mints, the pool's token
/// accounts for each, its LP token mint and its owner.
#[derive(Clone, Copy, Debug)]
pub struct LiquidityPool {
    pub token_a: TokenId,
    pub token_b: TokenId,
    pub lp_token_a: TokenId,
    pub lp_token_b: TokenId,
    pub lp_token: TokenId,
    pub owner: TokenId,
}

/// A deposit of both tokens, with the pool's state at the time.
#[derive(Clone, Copy, Debug)]
pub struct LPDepositRequest {
    pub token_a_balance: u64,
    pub token_a_decimals: u8,
    pub token_b_balance: u64,
    pub token_b_decimals: u8,
    pub lp_token_balance: u64,
    pub lp_token_decimals: u8,
    pub token_a_amount: u64,
    pub token_b_amount: u64,
}

/// The smaller of two integers.
pub open spec fn min(a: int, b: int) -> int {
    if a <= b {
        a
    } else {
        b
    }
}

/// Shares minted into a funded pool: the supply times the smaller of the two
/// deposit-to-reserve ratios, rounded down.
pub open spec fn standard_mint(supply: int, a: int, reserve_a: int, b: int, reserve_b: int) -> int {
    min(supply * a / reserve_a, supply * b / reserve_b)
}

/// The pool is either untouched (no reserves and no shares) or fully funded.
pub open spec fn pool_state_valid(reserve_a: int, reserve_b: int, supply: int) -> bool {
    &&& (reserve_a == 0) == (reserve_b == 0)
    &&& (reserve_a == 0) == (supply == 0)
}

/// The square of the bootstrap mint, rounded down: the product of the two
/// amounts in whole tokens (`x / 10^da` and `y / 10^db`), in units of the
/// LP token's smallest unit squared (`10^(2·dl)`).
pub open spec fn bootstrap_radicand(x: int, y: int, da: nat, db: nat, dl: nat) -> int {
    x * y * pow10(2 * dl) / (pow10(da + db) as int)
}

/// Shares minted into an empty pool: the geometric mean of the two amounts in
/// whole tokens, scaled to the LP token's decimals and rounded down, that is
/// `floor(sqrt(x / 10^da × y / 10^db) × 10^dl)`.
pub open spec fn initial_mint(req: LPDepositRequest) -> Result<u64, PoolError> {
    let m = floor_sqrt(
        bootstrap_radicand(
            req.token_a_amount as int,
            req.token_b_amount as int,
            req.token_a_decimals as nat,
            req.token_b_decimals as nat,
            req.lp_token_decimals as nat,
        ) as nat,
    );
    if m <= u64::MAX {
        Ok(m as u64)
    } else {
        Err(PoolError::ArithmeticOverflow)
    }
}

/// Shares minted for a deposit.
pub open spec fn mint_result(req: LPDepositRequest) -> Result<u64, PoolError> {
    if !pool_state_valid(
        req.token_a_balance as int,
        req.token_b_balance as int,
        req.lp_token_balance as int,
    ) {
        Err(PoolError::InvalidPoolState)
    } else if req.token_a_amount == 0 && req.token_b_amount == 0 {
        Err(PoolError::ZeroDeposit)
    } else if req.token_a_balance == 0 {
        initial_mint(req)
    } else {
        let m = standard_mint(
            req.lp_token_balance as int,
            req.token_a_amount as int,
            req.token_a_balance as int,
            req.token_b_amount as int,
            req.token_b_balance as int,
        );
        if m <= u64::MAX {
            Ok(m as u64)
        } else {
            Err(PoolError::ArithmeticOverflow)
        }
    }
}

/// Tokens paid out for `lp_amount` burned shares: each reserve times the
/// burned fraction of the supply, rounded down.
pub open spec fn redeem_result(lp_amount: int, supply: int, reserve_a: int, reserve_b: int) -> Result<
    (u64, u64),
    PoolError,
> {
    if !pool_state_valid(reserve_a, reserve_b, supply) {
        Err(PoolError::InvalidPoolState)
    } else if supply == 0 {
        Err(PoolError::EmptyPool)
    } else if lp_amount > supply {
        Err(PoolError::InsufficientShares)
    } else {
        Ok(((reserve_a * lp_amount / supply) as u64, (reserve_b * lp_amount / supply) as u64))
    }
}

/// Bits of the swapped-in amount after the fee, in whole tokens.
pub open spec fn swap_in_bits(amount: int, decimals_in: nat, fee: int) -> int {
    div_bits(mul_bits(amount * one(), one() - fee), pow10(decimals_in) * one())
}

/// Bits of the output reserve, in whole tokens, that keeps the product of the
/// reserves once the input reserve has grown by `amount_in`.
pub open spec fn swap_new_out_bits(reserve_in: int, reserve_out: int, amount_in: int) -> int {
    div_bits(mul_bits(reserve_in, reserve_out), reserve_in + amount_in)
}

/// Bits of the output amount, in raw units of the output token.
pub open spec fn swap_out_bits(reserve_out: int, new_out: int, decimals_out: nat) -> int {
    mul_bits(reserve_out - new_out, pow10(decimals_out) * one())
}

/// The output of a swap of `amount` raw input units, with fee rate `fee`
/// (bits of a fixed-point number) and reserves `reserve_in` and `reserve_out`
/// in raw units.
pub open spec fn swap_result(
    reserve_in: int,
    decimals_in: nat,
    reserve_out: int,
    decimals_out: nat,
    amount: int,
    fee: int,
) -> Result<u64, PoolError> {
    if amount == 0 {
        Ok(0)
    } else if reserve_in == 0 || reserve_out == 0 {
        Err(PoolError::EmptyPool)
    } else if decimals_in > MAX_DECIMALS || decimals_out > MAX_DECIMALS || amount > i64::MAX {
        Err(PoolError::ArithmeticOverflow)
    } else {
        let rin = scaled_bits(reserve_in, decimals_in);
        let rout = scaled_bits(reserve_out, decimals_out);
        let ain = swap_in_bits(amount, decimals_in, fee);
        let new_out = swap_new_out_bits(rin, rout, ain);
        let out = swap_out_bits(rout, new_out, decimals_out);
        if fits(rin) && fits(rout) && fits(mul_bits(rin, rout)) && fits(rin + ain) && fits(out) {
            Ok(min(out / one(), reserve_out) as u64)
        } else {
            Err(PoolError::ArithmeticOverflow)
        }
    }
}

/// The floor of the square root of a `u128`.
pub fn isqrt_u128(n: u128) -> (r: u64)
    ensures
        r == floor_sqrt(n as nat),
{
    let mut lo: u128 = 0;
    let mut hi: u128 = 0x1_0000_0000_0000_0000;
    while hi - lo > 1
        invariant
            lo < hi <= 0x1_0000_0000_0000_0000,
            lo * lo <= n,
            n < hi * hi,
        decreases hi - lo,
    {
        let mid = lo + (hi - lo) / 2;
        assert(mid * mid < 0x1_0000_0000_0000_0000_0000_0000_0000_0000) by (nonlinear_arith)
            requires
                mid < 0x1_0000_0000_0000_0000,
        ;
        if mid * mid <= n {
            lo = mid;
        } else {
            hi = mid;
        }
    }
    proof {
        lemma_floor_sqrt_unique(lo as int, n as nat);
    }
    lo as u64
}

/// `p * 10^e`, or `None` where that exceeds `u128::MAX`.
pub fn scale_up_u128(p: u128, e: u32) -> (r: Option<u128>)
    ensures
        p * pow10(e as nat) <= u128::MAX ==> r == Some((p * pow10(e as nat)) as u128),
        p * pow10(e as nat) > u128::MAX ==> r is None,
{
    let mut acc: u128 = p;
    let mut i: u32 = 0;
    assert(pow10(0) == 1);
    while i < e
        invariant
            i <= e,
            acc == p * pow10(i as nat),
        decreases e - i,
    {
        proof {
            lemma_pow10_monotonic(i as nat + 1, e as nat);
            assert(p * pow10(i as nat + 1) == acc * 10) by (nonlinear_arith)
                requires
                    acc == p * pow10(i as nat),
                    pow10(i as nat + 1) == 10 * pow10(i as nat),
            ;
            assert(p * pow10(i as nat + 1) <= p * pow10(e as nat)) by (nonlinear_arith)
                requires
                    pow10(i as nat + 1) <= pow10(e as nat),
                    p >= 0,
            ;
        }
        match acc.checked_mul(10) {
            Some(v) => {
                acc = v;
            },
            None => {
                return None;
            },
        }
        i = i + 1;
    }
    Some(acc)
}

/// `p / 10^e`, rounded down.
pub fn scale_down_u128(p: u128, e: u32) -> (r: u128)
    ensures
        r == p as int / (pow10(e as nat) as int),
{
    let mut acc: u128 = p;
    let mut i: u32 = 0;
    assert(pow10(0) == 1);
    while i < e
        invariant
            i <= e,
            acc == p as int / (pow10(i as nat) as int),
        decreases e - i,
    {
        proof {
            lemma_pow10_monotonic(0, i as nat);
            vstd::arithmetic::div_mod::lemma_div_denominator(p as int, pow10(i as nat) as int, 10);
            assert(pow10(i as nat + 1) == pow10(i as nat) * 10);
        }
        acc = acc / 10;
        i = i + 1;
    }
    acc
}

/// `10^(a + b) == 10^a · 10^b`.
pub proof fn lemma_pow10_add(a: nat, b: nat)
    ensures
        pow10(a + b) == pow10(a) * pow10(b),
    decreases a,
{
    if a > 0 {
        lemma_pow10_add((a - 1) as nat, b);
        assert(((a + b) - 1) as nat == ((a - 1) as nat + b) as nat);
        assert(pow10(a + b) == 10 * pow10(((a - 1) as nat + b) as nat));
        assert(pow10(a) == 10 * pow10((a - 1) as nat));
        assert(10 * (pow10((a - 1) as nat) * pow10(b)) == (10 * pow10((a - 1) as nat)) * pow10(b))
            by (nonlinear_arith);
    } else {
        assert(pow10(0) == 1);
        assert(a + b == b);
    }
}

/// A square root rounded down fits a `u64` exactly when its radicand is below
/// 2^128.
pub proof fn lemma_floor_sqrt_fits(n: nat)
    ensures
        (floor_sqrt(n) <= u64::MAX) == (n <= u128::MAX),
{
    lemma_floor_sqrt(n);
    let r = floor_sqrt(n) as int;
    if r <= u64::MAX {
        assert((r + 1) * (r + 1) <= 0x1_0000_0000_0000_0000_0000_0000_0000_0000) by (
        nonlinear_arith)
            requires
                0 <= r <= u64::MAX,
        ;
    } else {
        assert(r * r >= 0x1_0000_0000_0000_0000_0000_0000_0000_0000) by (nonlinear_arith)
            requires
                r > u64::MAX,
        ;
    }
}

/// A scaled raw amount of at least one unit is positive.
pub proof fn lemma_scaled_positive(amount: int, decimals: nat)
    requires
        amount >= 1,
        decimals <= 18,
    ensures
        scaled_bits(amount, decimals) >= 1,
{
    lemma_pow10_bound(decimals);
    assert(amount * one() >= pow10(decimals)) by (nonlinear_arith)
        requires
            amount >= 1,
            pow10(decimals) <= 1_000_000_000_000_000_000,
    ;
    vstd::arithmetic::div_mod::lemma_div_is_ordered(
        pow10(decimals) as int,
        amount * one(),
        pow10(decimals) as int,
    );
    vstd::arithmetic::div_mod::lemma_div_by_self(pow10(decimals) as int);
}

/// The new output reserve of a swap is no larger than the old one.
pub proof fn lemma_new_out_bounded(rin: int, rout: int, ain: int)
    requires
        rin >= 1,
        rout >= 0,
        ain >= 0,
    ensures
        0 <= swap_new_out_bits(rin, rout, ain) <= rout,
{
    let k = mul_bits(rin, rout);
    assert(0 <= rin * rout) by (nonlinear_arith)
        requires
            rin >= 1,
            rout >= 0,
    ;
    vstd::arithmetic::div_mod::lemma_fundamental_div_mod(rin * rout, one());
    vstd::arithmetic::div_mod::lemma_mod_pos_bound(rin * rout, one());
    vstd::arithmetic::div_mod::lemma_div_pos_is_pos(rin * rout, one());
    assert(k * one() <= (rin + ain) * rout) by (nonlinear_arith)
        requires
            rin * rout == one() * k + (rin * rout) % one(),
            0 <= (rin * rout) % one(),
            rout >= 0,
            ain >= 0,
    ;
    vstd::arithmetic::div_mod::lemma_multiply_divide_le(k * one(), rin + ain, rout);
    assert(k * one() >= 0) by (nonlinear_arith)
        requires
            k >= 0,
    ;
    vstd::arithmetic::div_mod::lemma_div_pos_is_pos(k * one(), rin + ain);
}

/// The bootstrap mint `m = floor_sqrt(p * t / s)` meets
/// `m² · s <= p · t < (m + 1)² · s`.
pub proof fn lemma_bootstrap_bounds(p: int, s: int, t: int, n: int, m: int)
    requires
        p >= 0,
        s >= 1,
        t >= 1,
        n == p * t / s,
        m == floor_sqrt(n as nat),
    ensures
        m * m * s <= p * t,
        p * t < (m + 1) * (m + 1) * s,
{
    assert(p * t >= 0) by (nonlinear_arith)
        requires
            p >= 0,
            t >= 1,
    ;
    vstd::arithmetic::div_mod::lemma_div_pos_is_pos(p * t, s);
    lemma_floor_sqrt(n as nat);
    vstd::arithmetic::div_mod::lemma_fundamental_div_mod(p * t, s);
    vstd::arithmetic::div_mod::lemma_mod_pos_bound(p * t, s);
    assert(m * m * s <= p * t && p * t < (m + 1) * (m + 1) * s) by (nonlinear_arith)
        requires
            p * t == s * n + (p * t) % s,
            0 <= (p * t) % s < s,
            m * m <= n,
            n < (m + 1) * (m + 1),
            n + 1 <= (m + 1) * (m + 1),
    ;
}

impl LiquidityPool {
    /// LP shares to mint for a deposit: the bootstrap rule when both reserves
    /// are empty, the proportional rule otherwise.
    pub fn calculate_lp_amount_to_mint(deposit_request: LPDepositRequest) -> (r: Result<
        u64,
        PoolError,
    >)
        ensures
            r == mint_result(deposit_request),
    {
        if (deposit_request.token_a_balance == 0) != (deposit_request.token_b_balance == 0) || (
        deposit_request.token_a_balance == 0) != (deposit_request.lp_token_balance == 0) {
            return Err(PoolError::InvalidPoolState);
        }
        if deposit_request.token_a_amount == 0 && deposit_request.token_b_amount == 0 {
            return Err(PoolError::ZeroDeposit);
        }
        if deposit_request.token_a_balance == 0 {
            LiquidityPool::calculate_lp_token_amount_for_initial_deposit(deposit_request)
        } else {
            LiquidityPool::calculate_lp_token_amount_for_standard_deposit(deposit_request)
        }
    }

    /// LP shares for a deposit into a funded pool: the supply times the smaller
    /// of the two deposit-to-reserve ratios, rounded down.
    pub fn calculate_lp_token_amount_for_standard_deposit(deposit_request: LPDepositRequest) -> (r:
        Result<u64, PoolError>)
        requires
            deposit_request.token_a_balance > 0,
            deposit_request.token_b_balance > 0,
        ensures
            ({
                let m = standard_mint(
                    deposit_request.lp_token_balance as int,
                    deposit_request.token_a_amount as int,
                    deposit_request.token_a_balance as int,
                    deposit_request.token_b_amount as int,
                    deposit_request.token_b_balance as int,
                );
                &&& m <= u64::MAX ==> r == Ok::<u64, PoolError>(m as u64)
                &&& m > u64::MAX ==> r == Err::<u64, PoolError>(PoolError::ArithmeticOverflow)
            }),
    {
        let supply = deposit_request.lp_token_balance as u128;
        let a = deposit_request.token_a_amount as u128;
        let b = deposit_request.token_b_amount as u128;
        proof {
            vstd::arithmetic::mul::lemma_mul_upper_bound(
                supply as int,
                u64::MAX as int,
                a as int,
                u64::MAX as int,
            );
            vstd::arithmetic::mul::lemma_mul_upper_bound(
                supply as int,
                u64::MAX as int,
                b as int,
                u64::MAX as int,
            );
        }
        let by_a = supply * a / (deposit_request.token_a_balance as u128);
        let by_b = supply * b / (deposit_request.token_b_balance as u128);
        let m = if by_a <= by_b {
            by_a
        } else {
            by_b
        };
        if m <= u64::MAX as u128 {
            Ok(m as u64)
        } else {
            Err(PoolError::ArithmeticOverflow)
        }
    }

    /// LP shares for the first deposit into an empty pool: the geometric mean
    /// of the two amounts in whole tokens, scaled to the LP token's decimals,
    /// computed exactly in integers and rounded down.
    pub fn calculate_lp_token_amount_for_initial_deposit(deposit_request: LPDepositRequest) -> (r:
        Result<u64, PoolError>)
        ensures
            r == initial_mint(deposit_request),
            r matches Ok(m) ==> ({
                let x = deposit_request.token_a_amount as int;
                let y = deposit_request.token_b_amount as int;
                let s = pow10(
                    (deposit_request.token_a_decimals + deposit_request.token_b_decimals) as nat,
                ) as int;
                let t = pow10(2 * deposit_request.lp_token_decimals as nat) as int;
                &&& m * m * s <= x * y * t
                &&& x * y * t < (m + 1) * (m + 1) * s
            }),
    {
        let x = deposit_request.token_a_amount;
        let y = deposit_request.token_b_amount;
        let da = deposit_request.token_a_decimals as u32;
        let db = deposit_request.token_b_decimals as u32;
        let dl = deposit_request.lp_token_decimals as u32;
        let ghost s = pow10((da + db) as nat) as int;
        let ghost t = pow10((2 * dl) as nat) as int;
        proof {
            vstd::arithmetic::mul::lemma_mul_upper_bound(
                x as int,
                u64::MAX as int,
                y as int,
                u64::MAX as int,
            );
        }
        let product = (x as u128) * (y as u128);
        proof {
            lemma_pow10_monotonic(0, (da + db) as nat);
            lemma_pow10_monotonic(0, (2 * dl) as nat);
        }
        let radicand = if 2 * dl >= da + db {
            let e = 2 * dl - (da + db);
            proof {
                lemma_pow10_add(e as nat, (da + db) as nat);
                assert(product * t == (product * pow10(e as nat)) * s) by (nonlinear_arith)
                    requires
                        t == pow10(e as nat) * s,
                ;
                assert(product * pow10(e as nat) >= 0) by (nonlinear_arith)
                    requires
                        product >= 0,
                ;
                vstd::arithmetic::div_mod::lemma_div_by_multiple(product * pow10(e as nat), s);
                lemma_floor_sqrt_fits((product * pow10(e as nat)) as nat);
            }
            match scale_up_u128(product, e) {
                Some(n) => n,
                None => {
                    return Err(PoolError::ArithmeticOverflow);
                },
            }
        } else {
            let e = (da + db) - 2 * dl;
            proof {
                lemma_pow10_add(e as nat, (2 * dl) as nat);
                lemma_pow10_monotonic(0, e as nat);
                vstd::arithmetic::div_mod::lemma_div_multiples_vanish_quotient(
                    t,
                    product as int,
                    pow10(e as nat) as int,
                );
                assert(product * t == t * product) by (nonlinear_arith);
                assert(s == t * pow10(e as nat)) by (nonlinear_arith)
                    requires
                        s == pow10(e as nat) * t,
                ;
            }
            scale_down_u128(product, e)
        };
        assert(radicand == bootstrap_radicand(
            x as int,
            y as int,
            da as nat,
            db as nat,
            dl as nat,
        ));
        let m = isqrt_u128(radicand);
        proof {
            lemma_bootstrap_bounds(x as int * y as int, s, t, radicand as int, m as int);
        }
        Ok(m)
    }

    /// Tokens returned for `lp_token_amount` burned shares: each reserve times
    /// the burned fraction of the supply, rounded down.
    pub fn calculate_token_amount_to_remove(
        lp_token_amount: u64,
        lp_token_supply: u64,
        token_a_balance: u64,
        token_b_balance: u64,
    ) -> (r: Result<(u64, u64), PoolError>)
        ensures
            r == redeem_result(
                lp_token_amount as int,
                lp_token_supply as int,
                token_a_balance as int,
                token_b_balance as int,
            ),
    {
        if (token_a_balance == 0) != (token_b_balance == 0) || (token_a_balance == 0) != (
        lp_token_supply == 0) {
            return Err(PoolError::InvalidPoolState);
        }
        if lp_token_supply == 0 {
            return Err(PoolError::EmptyPool);
        }
        if lp_token_amount > lp_token_supply {
            return Err(PoolError::InsufficientShares);
        }
        let lp = lp_token_amount as u128;
        let supply = lp_token_supply as u128;
        proof {
            assert(token_a_balance * lp <= token_a_balance * supply) by (nonlinear_arith)
                requires
                    lp <= supply,
            ;
            assert(token_b_balance * lp <= token_b_balance * supply) by (nonlinear_arith)
                requires
                    lp <= supply,
            ;
            vstd::arithmetic::mul::lemma_mul_upper_bound(
                token_a_balance as int,
                u64::MAX as int,
                lp as int,
                u64::MAX as int,
            );
            vstd::arithmetic::mul::lemma_mul_upper_bound(
                token_b_balance as int,
                u64::MAX as int,
                lp as int,
                u64::MAX as int,
            );
            vstd::arithmetic::div_mod::lemma_multiply_divide_le(
                token_a_balance * lp,
                supply as int,
                token_a_balance as int,
            );
            vstd::arithmetic::div_mod::lemma_multiply_divide_le(
                token_b_balance * lp,
                supply as int,
                token_b_balance as int,
            );
            assert(token_a_balance * supply == supply * token_a_balance) by (nonlinear_arith);
            assert(token_b_balance * supply == supply * token_b_balance) by (nonlinear_arith);
        }
        let amount_a = (token_a_balance as u128) * lp / supply;
        let amount_b = (token_b_balance as u128) * lp / supply;
        Ok((amount_a as u64, amount_b as u64))
    }

    /// The output of a swap at the pool's fixed fee rate.
    pub fn calculate_swap(
        token_balance_in: u64,
        token_in_decimals: u8,
        token_balance_out: u64,
        token_out_decimals: u8,
        amount: u64,
    ) -> (r: Result<u64, PoolError>)
        ensures
            r == swap_result(
                token_balance_in as int,
                token_in_decimals as nat,
                token_balance_out as int,
                token_out_decimals as nat,
                amount as int,
                fee_bits(),
            ),
            amount == 0 ==> r == Ok::<u64, PoolError>(0),
            r matches Ok(out) ==> out <= token_balance_out,
    {
        let numerator = FixedPoint::from_u64(FEE_NUMERATOR);
        let denominator = FixedPoint::from_u64(FEE_DENOMINATOR);
        proof {
            lemma_div_bits_by_int(FEE_NUMERATOR * one(), FEE_DENOMINATOR as int);
        }
        let fee_rate = match (numerator, denominator) {
            (Ok(n), Ok(d)) => match n.checked_div(d) {
                Ok(v) => v,
                Err(e) => return Err(e),
            },
            _ => return Err(PoolError::ArithmeticOverflow),
        };
        LiquidityPool::calculate_swap_with_fee(
            token_balance_in,
            token_in_decimals,
            token_balance_out,
            token_out_decimals,
            amount,
            fee_rate,
        )
    }

    /// The output of a constant-product swap of `amount` raw input units with
    /// fee rate `fee_rate`: the fee is taken from the input, the reserves and
    /// the input are turned into whole tokens, the output reserve that keeps
    /// the product of the reserves is found, and the difference is paid out
    /// in raw output units, never more than the output reserve.
    pub fn calculate_swap_with_fee(
        token_balance_in: u64,
        token_in_decimals: u8,
        token_balance_out: u64,
        token_out_decimals: u8,
        amount: u64,
        fee_rate: FixedPoint,
    ) -> (r: Result<u64, PoolError>)
        requires
            fee_rate@ <= one(),
        ensures
            r == swap_result(
                token_balance_in as int,
                token_in_decimals as nat,
                token_balance_out as int,
                token_out_decimals as nat,
                amount as int,
                fee_rate@,
            ),
            amount == 0 ==> r == Ok::<u64, PoolError>(0),
            r matches Ok(out) ==> out <= token_balance_out,
    {
        if amount == 0 {
            return Ok(0);
        }
        if token_balance_in == 0 || token_balance_out == 0 {
            return Err(PoolError::EmptyPool);
        }
        if token_in_decimals > MAX_DECIMALS || token_out_decimals > MAX_DECIMALS {
            return Err(PoolError::ArithmeticOverflow);
        }
        let ghost fee = fee_rate@;
        let ghost rin = scaled_bits(token_balance_in as int, token_in_decimals as nat);
        let ghost rout = scaled_bits(token_balance_out as int, token_out_decimals as nat);
        let ghost ain = swap_in_bits(amount as int, token_in_decimals as nat, fee);
        proof {
            lemma_pow10_bound(token_in_decimals as nat);
            lemma_pow10_bound(token_out_decimals as nat);
        }
        // Reading the bits establishes that the fee rate is not negative.
        let _fee_bits = fee_rate.to_bits();
        let amount_fx = match FixedPoint::from_u64(amount) {
            Ok(v) => v,
            Err(e) => return Err(e),
        };
        let one_fx = match FixedPoint::from_u64(1) {
            Ok(v) => v,
            Err(e) => return Err(e),
        };
        let keep = match one_fx.checked_sub(fee_rate) {
            Ok(v) => v,
            Err(e) => return Err(e),
        };
        proof {
            lemma_mul_bits_shrinks(amount * one(), keep@);
        }
        let after_fee = match amount_fx.checked_mul(keep) {
            Ok(v) => v,
            Err(e) => return Err(e),
        };
        let scale_in = match FixedPoint::from_u64(pow10_u64(token_in_decimals)) {
            Ok(v) => v,
            Err(e) => return Err(e),
        };
        proof {
            lemma_div_bits_by_int(after_fee@, pow10(token_in_decimals as nat) as int);
        }
        let amount_in = match after_fee.checked_div(scale_in) {
            Ok(v) => v,
            Err(e) => return Err(e),
        };
        assert(amount_in@ == ain);
        let reserve_in = match FixedPoint::from_scaled(token_balance_in, token_in_decimals) {
            Ok(v) => v,
            Err(e) => return Err(e),
        };
        let reserve_out = match FixedPoint::from_scaled(token_balance_out, token_out_decimals) {
            Ok(v) => v,
            Err(e) => return Err(e),
        };
        let product = match reserve_in.checked_mul(reserve_out) {
            Ok(v) => v,
            Err(e) => return Err(e),
        };
        let new_in = match reserve_in.checked_add(amount_in) {
            Ok(v) => v,
            Err(e) => return Err(e),
        };
        proof {
            lemma_scaled_positive(token_balance_in as int, token_in_decimals as nat);
            lemma_new_out_bounded(rin, rout, ain);
        }
        let new_reserve_out = match product.checked_div(new_in) {
            Ok(v) => v,
            Err(e) => return Err(e),
        };
        let amount_out_norm = match reserve_out.checked_sub(new_reserve_out) {
            Ok(v) => v,
            Err(e) => return Err(e),
        };
        let scale_out = match FixedPoint::from_u64(pow10_u64(token_out_decimals)) {
            Ok(v) => v,
            Err(e) => return Err(e),
        };
        let amount_out = match amount_out_norm.checked_mul(scale_out) {
            Ok(v) => v,
            Err(e) => return Err(e),
        };
        let whole = amount_out.floor_to_u64();
        if whole <= token_balance_out {
            Ok(whole)
        } else {
            Ok(token_balance_out)
        }
    }

    /// The two identifiers in ascending byte order.
    pub fn sort_pubkeys(pubkey_a: TokenId, pubkey_b: TokenId) -> (r: (TokenId, TokenId))
        ensures
            bytes_lt(pubkey_a.bytes@, pubkey_b.bytes@) ==> r == (pubkey_a, pubkey_b),
            !bytes_lt(pubkey_a.bytes@, pubkey_b.bytes@) ==> r == (pubkey_b, pubkey_a),
    {
        if pubkey_a.lt(&pubkey_b) {
            (pubkey_a, pubkey_b)
        } else {
            (pubkey_b, pubkey_a)
        }
    }
}

} // verus!
