//! Non-negative fixed-point numbers with 64 integer and 64 fractional bits,
//! computed by the `fixed` crate's `I64F64`. A value is held as its raw bits:
//! the number `b / 2^64` is stored as the integer `b`.
use crate::error::PoolError;
use fixed::types::I64F64;
use vstd::prelude::*;

verus! {

/// The raw bits of the number one.
pub open spec fn one() -> int {
    0x1_0000_0000_0000_0000
}

/// Raw bits that a non-negative `I64F64` can hold.
pub open spec fn fits(bits: int) -> bool {
    0 <= bits <= i128::MAX
}

/// Bits of the product of two fixed-point numbers, rounded down.
pub open spec fn mul_bits(a: int, b: int) -> int {
    a * b / one()
}

/// Bits of the quotient of two fixed-point numbers, rounded down.
pub open spec fn div_bits(a: int, b: int) -> int {
    a * one() / b
}

/// Ten to the power `n`.
pub open spec fn pow10(n: nat) -> nat
    decreases n,
{
    if n == 0 {
        1
    } else {
        10 * pow10((n - 1) as nat)
    }
}

/// Bits of `amount / 10^decimals`, rounded down: a raw token amount expressed
/// in whole tokens.
pub open spec fn scaled_bits(amount: int, decimals: nat) -> int {
    amount * one() / (pow10(decimals) as int)
}

/// `r` is the square root of `n`, rounded down.
pub open spec fn is_floor_sqrt(r: int, n: int) -> bool {
    0 <= r && r * r <= n && n < (r + 1) * (r + 1)
}

/// The square root of `n`, rounded down.
pub open spec fn floor_sqrt(n: nat) -> nat
    decreases n,
{
    if n == 0 {
        0
    } else {
        let r = floor_sqrt((n - 1) as nat);
        if (r + 1) * (r + 1) <= n {
            r + 1
        } else {
            r
        }
    }
}

/// Bits of the square root of a fixed-point number, rounded down.
pub open spec fn sqrt_bits(a: int) -> int {
    floor_sqrt((a * one()) as nat) as int
}

/// The result of a fixed-point step whose exact bits are `bits`.
pub open spec fn checked_bits(bits: int) -> Result<int, PoolError> {
    if fits(bits) {
        Ok(bits)
    } else {
        Err(PoolError::ArithmeticOverflow)
    }
}

/// The largest number of decimals whose scale `10^decimals` the fixed-point
/// type can hold.
pub const MAX_DECIMALS: u8 = 18;

/// `floor_sqrt` is the square root rounded down.
pub proof fn lemma_floor_sqrt(n: nat)
    ensures
        is_floor_sqrt(floor_sqrt(n) as int, n as int),
    decreases n,
{
    if n > 0 {
        lemma_floor_sqrt((n - 1) as nat);
        let r = floor_sqrt((n - 1) as nat) as int;
        assert((r + 1) * (r + 1) <= n || n < (r + 1) * (r + 1));
        if (r + 1) * (r + 1) <= n {
            assert(n < (r + 2) * (r + 2)) by (nonlinear_arith)
                requires
                    n - 1 < (r + 1) * (r + 1),
                    0 <= r,
            ;
        }
    }
}

/// A square root is unique.
pub proof fn lemma_floor_sqrt_unique(r: int, n: nat)
    requires
        is_floor_sqrt(r, n as int),
    ensures
        r == floor_sqrt(n),
{
    lemma_floor_sqrt(n);
    let s = floor_sqrt(n) as int;
    if r < s {
        assert((r + 1) * (r + 1) <= s * s) by (nonlinear_arith)
            requires
                0 <= r + 1 <= s,
        ;
    } else if s < r {
        assert((s + 1) * (s + 1) <= r * r) by (nonlinear_arith)
            requires
                0 <= s + 1 <= r,
        ;
    }
}

/// Relies on `I64F64::checked_from_num` of the fixed crate for a `u64`: the
/// integer shifted left by the 64 fractional bits, or `None` where it is
/// larger than the signed 64-bit integer part can hold.
#[verifier::external_body]
fn i64f64_from_u64(n: u64) -> (r: Option<i128>)
    ensures
        n <= i64::MAX ==> r == Some((n * one()) as i128),
        n > i64::MAX ==> r is None,
{
    match I64F64::checked_from_num(n) {
        Some(v) => Some(v.to_bits()),
        None => None,
    }
}

/// Relies on `I64F64::checked_mul` of the fixed crate: for operands that are
/// not negative, the product of the raw bits shifted right by 64 (rounded
/// down), or `None` where that exceeds `i128::MAX`.
#[verifier::external_body]
fn i64f64_checked_mul(a: i128, b: i128) -> (r: Option<i128>)
    requires
        0 <= a,
        0 <= b,
    ensures
        fits(mul_bits(a as int, b as int)) ==> r == Some(mul_bits(a as int, b as int) as i128),
        !fits(mul_bits(a as int, b as int)) ==> r is None,
{
    match I64F64::from_bits(a).checked_mul(I64F64::from_bits(b)) {
        Some(v) => Some(v.to_bits()),
        None => None,
    }
}

/// Relies on `I64F64::checked_div` of the fixed crate: `None` for a zero
/// divisor; otherwise, for operands that are not negative, the dividend's bits
/// shifted left by 64 and divided by the divisor's bits (rounded down), or
/// `None` where that exceeds `i128::MAX`.
#[verifier::external_body]
fn i64f64_checked_div(a: i128, b: i128) -> (r: Option<i128>)
    requires
        0 <= a,
        0 <= b,
    ensures
        b == 0 ==> r is None,
        b > 0 && fits(div_bits(a as int, b as int)) ==> r == Some(
            div_bits(a as int, b as int) as i128,
        ),
        b > 0 && !fits(div_bits(a as int, b as int)) ==> r is None,
{
    match I64F64::from_bits(a).checked_div(I64F64::from_bits(b)) {
        Some(v) => Some(v.to_bits()),
        None => None,
    }
}

/// Relies on `I64F64::sqrt` of the fixed crate: for a number that is not
/// negative, the square root rounded down to a multiple of 2^-64 (it panics
/// only on negative input, and cannot overflow with 64 integer bits).
#[verifier::external_body]
fn i64f64_sqrt(a: i128) -> (r: i128)
    requires
        0 <= a,
    ensures
        is_floor_sqrt(r as int, a * one()),
{
    I64F64::from_bits(a).sqrt().to_bits()
}

/// Relies on `I64F64::checked_to_num::<u64>` of the fixed crate: the
/// fractional bits are discarded, rounding down; a number that is not
/// negative and below 2^63 always fits a `u64`.
#[verifier::external_body]
fn i64f64_to_u64(a: i128) -> (r: Option<u64>)
    requires
        0 <= a,
    ensures
        r == Some((a as int / one()) as u64),
{
    I64F64::from_bits(a).checked_to_num::<u64>()
}

/// Ten to the power `d`, for `d` small enough that it fits a `u64`.
pub fn pow10_u64(d: u8) -> (r: u64)
    requires
        d <= 19,
    ensures
        r == pow10(d as nat),
{
    let mut r: u64 = 1;
    let mut i: u8 = 0;
    while i < d
        invariant
            i <= d <= 19,
            r == pow10(i as nat),
        decreases d - i,
    {
        proof {
            lemma_pow10_bound(i as nat);
        }
        r = r * 10;
        i = i + 1;
    }
    r
}

/// `10^n` is at least one, grows with `n`, and stays within `u64` up to
/// `n = 19`.
pub proof fn lemma_pow10_bound(n: nat)
    ensures
        pow10(n) >= 1,
        n <= 18 ==> pow10(n) <= 1_000_000_000_000_000_000,
        n <= 19 ==> pow10(n) <= 10_000_000_000_000_000_000,
{
    reveal_with_fuel(pow10, 20);
    if n <= 19 {
        lemma_pow10_monotonic(n, 18);
        lemma_pow10_monotonic(n, 19);
    } else {
        lemma_pow10_monotonic(0, n);
    }
}

/// `10^m <= 10^n` for `m <= n`.
pub proof fn lemma_pow10_monotonic(m: nat, n: nat)
    ensures
        m <= n ==> pow10(m) <= pow10(n),
        pow10(n) >= 1,
    decreases n,
{
    if n > 0 {
        lemma_pow10_monotonic(m, (n - 1) as nat);
    }
}

/// Splitting `amount` into whole multiples of `scale` and a remainder splits
/// its scaled bits the same way; the remainder's part is below one.
proof fn lemma_scaled_split(amount: int, scale: int)
    requires
        0 <= amount,
        1 <= scale,
    ensures
        amount * one() / scale == (amount / scale) * one() + (amount % scale) * one() / scale,
        0 <= (amount % scale) * one() / scale < one(),
        amount / scale <= amount,
{
    let q = amount / scale;
    let r = amount % scale;
    vstd::arithmetic::div_mod::lemma_fundamental_div_mod(amount, scale);
    vstd::arithmetic::div_mod::lemma_mod_pos_bound(amount, scale);
    vstd::arithmetic::div_mod::lemma_div_pos_is_pos(amount, scale);
    let t = r * one() / scale;
    let u = (r * one()) % scale;
    vstd::arithmetic::div_mod::lemma_fundamental_div_mod(r * one(), scale);
    vstd::arithmetic::div_mod::lemma_mod_pos_bound(r * one(), scale);
    assert(amount * one() == (q * one() + t) * scale + u) by (nonlinear_arith)
        requires
            amount == scale * q + r,
            r * one() == scale * t + u,
    ;
    vstd::arithmetic::div_mod::lemma_fundamental_div_mod_converse(
        amount * one(),
        scale,
        q * one() + t,
        u,
    );
    assert(r * one() < scale * one()) by (nonlinear_arith)
        requires
            0 <= r < scale,
    ;
    vstd::arithmetic::div_mod::lemma_multiply_divide_lt(r * one(), scale, one());
    vstd::arithmetic::div_mod::lemma_div_pos_is_pos(r * one(), scale);
    assert(q <= amount) by (nonlinear_arith)
        requires
            amount == scale * q + r,
            0 <= r,
            1 <= scale,
            0 <= q,
    ;
}

/// Multiplying by a factor of at most one does not grow a number.
pub proof fn lemma_mul_bits_shrinks(a: int, k: int)
    requires
        0 <= a,
        0 <= k <= one(),
    ensures
        0 <= mul_bits(a, k) <= a,
{
    assert(0 <= a * k <= a * one()) by (nonlinear_arith)
        requires
            0 <= a,
            0 <= k <= one(),
    ;
    vstd::arithmetic::div_mod::lemma_div_is_ordered(a * k, a * one(), one());
    vstd::arithmetic::div_mod::lemma_div_by_multiple(a, one());
    vstd::arithmetic::div_mod::lemma_div_pos_is_pos(a * k, one());
}

/// `mul_bits` grows with each operand.
pub proof fn lemma_mul_bits_monotonic(a: int, b: int, c: int, d: int)
    requires
        0 <= a <= b,
        0 <= c <= d,
    ensures
        0 <= mul_bits(a, c) <= mul_bits(b, d),
{
    assert(0 <= a * c <= b * d) by (nonlinear_arith)
        requires
            0 <= a <= b,
            0 <= c <= d,
    ;
    vstd::arithmetic::div_mod::lemma_div_is_ordered(a * c, b * d, one());
    vstd::arithmetic::div_mod::lemma_div_pos_is_pos(a * c, one());
}

/// `div_bits` grows with the dividend and shrinks as the divisor grows.
pub proof fn lemma_div_bits_monotonic(a: int, b: int, c: int, d: int)
    requires
        0 <= a <= b,
        1 <= d <= c,
    ensures
        0 <= div_bits(a, c) <= div_bits(b, d),
{
    assert(0 <= a * one() <= b * one()) by (nonlinear_arith)
        requires
            0 <= a <= b,
    ;
    vstd::arithmetic::div_mod::lemma_div_is_ordered(a * one(), b * one(), d);
    vstd::arithmetic::div_mod::lemma_div_is_ordered_by_denominator(a * one(), d, c);
    vstd::arithmetic::div_mod::lemma_div_pos_is_pos(a * one(), c);
}

/// Dividing by the fixed-point integer `s` is integer division by `s`.
pub proof fn lemma_div_bits_by_int(a: int, s: int)
    requires
        0 <= a,
        1 <= s,
    ensures
        div_bits(a, s * one()) == a / s,
        0 <= a / s <= a,
{
    vstd::arithmetic::div_mod::lemma_div_multiples_vanish_quotient(one(), a, s);
    assert(a * one() == one() * a) by (nonlinear_arith);
    assert(s * one() == one() * s) by (nonlinear_arith);
    vstd::arithmetic::div_mod::lemma_div_pos_is_pos(a, s);
    vstd::arithmetic::div_mod::lemma_div_is_ordered_by_denominator(a, 1, s);
}

/// A non-negative fixed-point number with 64 fractional bits.
#[derive(Clone, Copy, Debug, PartialEq, Eq, Structural)]
pub struct FixedPoint {
    bits: i128,
}

impl View for FixedPoint {
    type V = int;

    /// The raw bits: the number is `self@ / 2^64`.
    closed spec fn view(&self) -> int {
        self.bits as int
    }
}

/// The raw bits of a fixed-point result, or its error.
pub open spec fn bits_of(r: Result<FixedPoint, PoolError>) -> Result<int, PoolError> {
    match r {
        Ok(v) => Ok(v@),
        Err(e) => Err(e),
    }
}

impl FixedPoint {
    #[verifier::type_invariant]
    spec fn inv(self) -> bool {
        self.bits >= 0
    }

    /// The raw bits.
    pub fn to_bits(self) -> (r: i128)
        ensures
            r == self@,
            fits(r as int),
    {
        proof {
            use_type_invariant(&self);
        }
        self.bits
    }

    /// The number whose raw bits are `bits`, or `None` for negative bits.
    pub fn from_bits(bits: i128) -> (r: Option<FixedPoint>)
        ensures
            bits >= 0 ==> (r matches Some(v) && v@ == bits),
            bits < 0 ==> r is None,
    {
        if bits >= 0 {
            Some(FixedPoint { bits })
        } else {
            None
        }
    }

    /// The integer `n`.
    pub fn from_u64(n: u64) -> (r: Result<FixedPoint, PoolError>)
        ensures
            bits_of(r) == checked_bits(n * one()),
    {
        match i64f64_from_u64(n) {
            Some(bits) => Ok(FixedPoint { bits }),
            None => Err(PoolError::ArithmeticOverflow),
        }
    }

    /// `self + rhs`.
    pub fn checked_add(self, rhs: FixedPoint) -> (r: Result<FixedPoint, PoolError>)
        ensures
            bits_of(r) == checked_bits(self@ + rhs@),
    {
        proof {
            use_type_invariant(&self);
            use_type_invariant(&rhs);
        }
        if self.bits <= i128::MAX - rhs.bits {
            Ok(FixedPoint { bits: self.bits + rhs.bits })
        } else {
            Err(PoolError::ArithmeticOverflow)
        }
    }

    /// `self - rhs`; a negative difference is out of range.
    pub fn checked_sub(self, rhs: FixedPoint) -> (r: Result<FixedPoint, PoolError>)
        ensures
            bits_of(r) == checked_bits(self@ - rhs@),
    {
        proof {
            use_type_invariant(&self);
            use_type_invariant(&rhs);
        }
        if rhs.bits <= self.bits {
            Ok(FixedPoint { bits: self.bits - rhs.bits })
        } else {
            Err(PoolError::ArithmeticOverflow)
        }
    }

    /// `self * rhs`, rounded down.
    pub fn checked_mul(self, rhs: FixedPoint) -> (r: Result<FixedPoint, PoolError>)
        ensures
            bits_of(r) == checked_bits(mul_bits(self@, rhs@)),
    {
        proof {
            use_type_invariant(&self);
            use_type_invariant(&rhs);
            vstd::arithmetic::div_mod::lemma_div_pos_is_pos(self@ * rhs@, one());
            vstd::arithmetic::mul::lemma_mul_nonnegative(self@, rhs@);
        }
        match i64f64_checked_mul(self.bits, rhs.bits) {
            Some(bits) => Ok(FixedPoint { bits }),
            None => Err(PoolError::ArithmeticOverflow),
        }
    }

    /// `self / rhs`, rounded down.
    pub fn checked_div(self, rhs: FixedPoint) -> (r: Result<FixedPoint, PoolError>)
        ensures
            rhs@ == 0 ==> r == Err::<FixedPoint, PoolError>(PoolError::DivisionByZero),
            rhs@ != 0 ==> bits_of(r) == checked_bits(div_bits(self@, rhs@)),
    {
        proof {
            use_type_invariant(&self);
            use_type_invariant(&rhs);
        }
        if rhs.bits == 0 {
            return Err(PoolError::DivisionByZero);
        }
        proof {
            vstd::arithmetic::mul::lemma_mul_nonnegative(self@, one());
            vstd::arithmetic::div_mod::lemma_div_pos_is_pos(self@ * one(), rhs@);
        }
        match i64f64_checked_div(self.bits, rhs.bits) {
            Some(bits) => Ok(FixedPoint { bits }),
            None => Err(PoolError::ArithmeticOverflow),
        }
    }

    /// The square root, rounded down.
    pub fn sqrt(self) -> (r: FixedPoint)
        ensures
            r@ == sqrt_bits(self@),
    {
        proof {
            use_type_invariant(&self);
        }
        let bits = i64f64_sqrt(self.bits);
        proof {
            vstd::arithmetic::mul::lemma_mul_nonnegative(self@, one());
            lemma_floor_sqrt_unique(bits as int, (self@ * one()) as nat);
        }
        FixedPoint { bits }
    }

    /// The integer part.
    pub fn floor_to_u64(self) -> (r: u64)
        ensures
            r == self@ / one(),
    {
        proof {
            use_type_invariant(&self);
        }
        match i64f64_to_u64(self.bits) {
            Some(n) => n,
            None => 0,
        }
    }

    /// The raw token amount `amount` in whole tokens of `decimals` decimals:
    /// `amount / 10^decimals`, rounded down. The integer and fractional parts
    /// are converted apart, so that every `u64` amount with at least one
    /// decimal is in range.
    pub fn from_scaled(amount: u64, decimals: u8) -> (r: Result<FixedPoint, PoolError>)
        ensures
            decimals > MAX_DECIMALS ==> r == Err::<FixedPoint, PoolError>(
                PoolError::ArithmeticOverflow,
            ),
            decimals <= MAX_DECIMALS ==> bits_of(r) == checked_bits(
                scaled_bits(amount as int, decimals as nat),
            ),
    {
        if decimals > MAX_DECIMALS {
            return Err(PoolError::ArithmeticOverflow);
        }
        let scale = pow10_u64(decimals);
        proof {
            lemma_pow10_bound(decimals as nat);
        }
        let whole = amount / scale;
        let rest = amount % scale;
        proof {
            lemma_scaled_split(amount as int, scale as int);
        }
        let whole_fx = match FixedPoint::from_u64(whole) {
            Ok(v) => v,
            Err(e) => return Err(e),
        };
        let rest_fx = match FixedPoint::from_u64(rest) {
            Ok(v) => v,
            Err(e) => return Err(e),
        };
        let scale_fx = match FixedPoint::from_u64(scale) {
            Ok(v) => v,
            Err(e) => return Err(e),
        };
        proof {
            lemma_div_bits_by_int(rest * one(), scale as int);
        }
        let frac_fx = match rest_fx.checked_div(scale_fx) {
            Ok(v) => v,
            Err(e) => return Err(e),
        };
        whole_fx.checked_add(frac_fx)
    }
}

} // verus!
