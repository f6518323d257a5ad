use digital_nomad_exchange::fixed_point::FixedPoint;
use digital_nomad_exchange::{
    mint_amount, redeem_amounts, swap_out, DepositRequest, LiquidityPool, PoolError, PoolSnapshot,
    SwapDirection, SwapRequest, WithdrawalRequest,
};

fn snapshot(reserve_a: u64, reserve_b: u64, lp_supply: u64) -> PoolSnapshot {
    PoolSnapshot { reserve_a, reserve_b, decimals_a: 9, decimals_b: 9, lp_supply, lp_decimals: 9 }
}

fn fee(numerator: u64, denominator: u64) -> FixedPoint {
    FixedPoint::from_u64(numerator).unwrap().checked_div(FixedPoint::from_u64(denominator).unwrap()).unwrap()
}

#[test]
fn bootstrap_mints_geometric_mean() {
    let r = mint_amount(&snapshot(0, 0, 0), &DepositRequest { amount_a: 1000, amount_b: 1000 });
    assert_eq!(r, Ok(1000));
    let r = mint_amount(&snapshot(0, 0, 0), &DepositRequest { amount_a: 10, amount_b: 1000 });
    assert_eq!(r, Ok(100));
    let r = mint_amount(&snapshot(0, 0, 0), &DepositRequest { amount_a: 2, amount_b: 1 });
    assert_eq!(r, Ok(1));
}

#[test]
fn steady_state_equal_ratio() {
    let r = mint_amount(&snapshot(1000, 1000, 1000), &DepositRequest { amount_a: 500, amount_b: 500 });
    assert_eq!(r, Ok(500));
}

#[test]
fn steady_state_binds_on_smaller_ratio() {
    let r = mint_amount(&snapshot(1000, 1000, 1000), &DepositRequest { amount_a: 100, amount_b: 500 });
    assert_eq!(r, Ok(100));
    let r = mint_amount(&snapshot(1000, 1000, 1000), &DepositRequest { amount_a: 500, amount_b: 100 });
    assert_eq!(r, Ok(100));
}

#[test]
fn deposit_errors() {
    let r = mint_amount(&snapshot(1000, 0, 1000), &DepositRequest { amount_a: 5, amount_b: 5 });
    assert_eq!(r, Err(PoolError::InvalidPoolState));
    let r = mint_amount(&snapshot(0, 7, 0), &DepositRequest { amount_a: 5, amount_b: 5 });
    assert_eq!(r, Err(PoolError::InvalidPoolState));
    let r = mint_amount(&snapshot(1000, 1000, 1000), &DepositRequest { amount_a: 0, amount_b: 0 });
    assert_eq!(r, Err(PoolError::ZeroDeposit));
    let r = mint_amount(&snapshot(0, 0, 0), &DepositRequest { amount_a: 0, amount_b: 0 });
    assert_eq!(r, Err(PoolError::ZeroDeposit));
    // The minted amount would not fit a u64.
    let r = mint_amount(&snapshot(1, 1, u64::MAX), &DepositRequest { amount_a: 2, amount_b: 2 });
    assert_eq!(r, Err(PoolError::ArithmeticOverflow));
}

#[test]
fn bootstrap_reconciles_decimals() {
    // floor(sqrt(1000 / 10^6 * 1000 / 10^9) * 10^9) = floor(31622.77)
    let s = PoolSnapshot { reserve_a: 0, reserve_b: 0, decimals_a: 6, decimals_b: 9, lp_supply: 0, lp_decimals: 9 };
    assert_eq!(mint_amount(&s, &DepositRequest { amount_a: 1000, amount_b: 1000 }), Ok(31622));
    // Fewer LP decimals than the tokens: floor(sqrt(2 * 3) * 10^0) = 2.
    let s = PoolSnapshot { decimals_a: 9, decimals_b: 9, lp_decimals: 0, ..s };
    assert_eq!(mint_amount(&s, &DepositRequest { amount_a: 2_000_000_000, amount_b: 3_000_000_000 }), Ok(2));
}

#[test]
fn bootstrap_large_amounts_are_exact() {
    let s = PoolSnapshot { reserve_a: 0, reserve_b: 0, decimals_a: 9, decimals_b: 9, lp_supply: 0, lp_decimals: 9 };
    let r = mint_amount(&s, &DepositRequest { amount_a: 1 << 32, amount_b: 1 << 32 });
    assert_eq!(r, Ok(1 << 32));
    let r = mint_amount(&s, &DepositRequest { amount_a: 500_000_000_000, amount_b: 500_000_000_000 });
    assert_eq!(r, Ok(500_000_000_000));
    let s6 = PoolSnapshot { decimals_a: 6, ..s };
    let r = mint_amount(&s6, &DepositRequest { amount_a: 500_000_000_000, amount_b: 500_000_000_000 });
    assert_eq!(r, Ok(15811388300841));
    // The largest raw product still has a u64 root.
    let r = mint_amount(&s, &DepositRequest { amount_a: u64::MAX, amount_b: u64::MAX });
    assert_eq!(r, Ok(u64::MAX));
    // More LP decimals than the tokens push the result past u64.
    let s = PoolSnapshot { decimals_a: 0, decimals_b: 0, lp_decimals: 1, ..s };
    let r = mint_amount(&s, &DepositRequest { amount_a: u64::MAX, amount_b: u64::MAX });
    assert_eq!(r, Err(PoolError::ArithmeticOverflow));
}

#[test]
fn mismatched_supply_is_invalid() {
    let d = DepositRequest { amount_a: 500, amount_b: 500 };
    assert_eq!(mint_amount(&snapshot(1000, 1000, 0), &d), Err(PoolError::InvalidPoolState));
    assert_eq!(mint_amount(&snapshot(0, 0, 1000), &d), Err(PoolError::InvalidPoolState));
    let w = WithdrawalRequest { lp_amount: 0 };
    assert_eq!(redeem_amounts(&snapshot(1000, 1000, 0), &w), Err(PoolError::InvalidPoolState));
    assert_eq!(redeem_amounts(&snapshot(0, 1000, 1000), &w), Err(PoolError::InvalidPoolState));
    let q = SwapRequest { amount_in: 10, direction: SwapDirection::AToB };
    assert_eq!(swap_out(&snapshot(1000, 1000, 0), &q), Err(PoolError::InvalidPoolState));
}

#[test]
fn withdrawal_proportional() {
    assert_eq!(redeem_amounts(&snapshot(1000, 1000, 1000), &WithdrawalRequest { lp_amount: 100 }), Ok((100, 100)));
    assert_eq!(redeem_amounts(&snapshot(13400, 342, 1300), &WithdrawalRequest { lp_amount: 100 }), Ok((1030, 26)));
    assert_eq!(redeem_amounts(&snapshot(u64::MAX, u64::MAX, u64::MAX), &WithdrawalRequest { lp_amount: u64::MAX }),
        Ok((u64::MAX, u64::MAX)));
}

#[test]
fn withdrawal_errors() {
    assert_eq!(redeem_amounts(&snapshot(0, 0, 0), &WithdrawalRequest { lp_amount: 0 }), Err(PoolError::EmptyPool));
    assert_eq!(redeem_amounts(&snapshot(1000, 1000, 1000), &WithdrawalRequest { lp_amount: 1001 }),
        Err(PoolError::InsufficientShares));
}

#[test]
fn swap_of_nothing_returns_nothing() {
    for s in [snapshot(1000, 1000, 1000), snapshot(0, 0, 0), snapshot(1, u64::MAX, 5)] {
        for direction in [SwapDirection::AToB, SwapDirection::BToA] {
            assert_eq!(swap_out(&s, &SwapRequest { amount_in: 0, direction }), Ok(0));
        }
    }
}

#[test]
fn swap_direction_selects_reserves() {
    let s = PoolSnapshot { reserve_a: 34556, reserve_b: 12345, decimals_a: 9, decimals_b: 9, lp_supply: 1, lp_decimals: 9 };
    assert_eq!(swap_out(&s, &SwapRequest { amount_in: 100, direction: SwapDirection::AToB }), Ok(35));
    // 99.7 * 34556 / 12444.7 = 276.8...
    assert_eq!(swap_out(&s, &SwapRequest { amount_in: 100, direction: SwapDirection::BToA }), Ok(276));
}

#[test]
fn swap_errors() {
    let s = snapshot(0, 0, 0);
    assert_eq!(swap_out(&s, &SwapRequest { amount_in: 10, direction: SwapDirection::AToB }), Err(PoolError::EmptyPool));
    assert_eq!(LiquidityPool::calculate_swap(0, 9, 1000, 9, 10), Err(PoolError::EmptyPool));
    let s = snapshot(0, 1000, 1000);
    assert_eq!(swap_out(&s, &SwapRequest { amount_in: 10, direction: SwapDirection::AToB }), Err(PoolError::InvalidPoolState));
    assert_eq!(LiquidityPool::calculate_swap(1000, 19, 1000, 9, 10), Err(PoolError::ArithmeticOverflow));
    assert_eq!(LiquidityPool::calculate_swap(1000, 9, 1000, 9, u64::MAX), Err(PoolError::ArithmeticOverflow));
    // Reserves too large for the fixed-point product.
    assert_eq!(LiquidityPool::calculate_swap(u64::MAX, 0, u64::MAX, 0, 1), Err(PoolError::ArithmeticOverflow));
}

#[test]
fn swap_never_exceeds_output_reserve() {
    assert_eq!(LiquidityPool::calculate_swap(1, 0, 1, 0, 1_000_000), Ok(0));
    let out = LiquidityPool::calculate_swap(1000, 0, 1000, 0, 1 << 40).unwrap();
    assert!(out <= 1000);
    assert_eq!(out, 999);
}

#[test]
fn higher_fee_never_pays_more() {
    let fees = [fee(0, 1), fee(3, 1000), fee(1, 100), fee(1, 2), fee(1, 1)];
    let mut last = u64::MAX;
    for f in fees {
        let out = LiquidityPool::calculate_swap_with_fee(1000, 0, 1000, 0, 100, f).unwrap();
        assert!(out <= last);
        last = out;
    }
    assert_eq!(LiquidityPool::calculate_swap_with_fee(1000, 0, 1000, 0, 100, fee(0, 1)), Ok(90));
    assert_eq!(LiquidityPool::calculate_swap_with_fee(1000, 0, 1000, 0, 100, fee(1, 1)), Ok(0));
}

#[test]
fn zero_fee_swap_keeps_product() {
    let (reserve_in, reserve_out, amount) = (1000u64, 1000u64, 100u64);
    let out = LiquidityPool::calculate_swap_with_fee(reserve_in, 0, reserve_out, 0, amount, fee(0, 1)).unwrap();
    // 1000 - 1000 * 1000 / 1100 = 90.9...
    assert_eq!(out, 90);
    let before = reserve_in as u128 * reserve_out as u128;
    let after = (reserve_in + amount) as u128 * (reserve_out - out) as u128;
    assert!(after >= before);
}

#[test]
fn deposit_then_withdraw_returns_no_more() {
    let cases = [
        (snapshot(1000, 1000, 1000), DepositRequest { amount_a: 100, amount_b: 500 }),
        (snapshot(13400, 342, 1300), DepositRequest { amount_a: 777, amount_b: 19 }),
        (snapshot(0, 0, 0), DepositRequest { amount_a: 1000, amount_b: 7 }),
    ];
    for (s, d) in cases {
        let minted = mint_amount(&s, &d).unwrap();
        let after = PoolSnapshot {
            reserve_a: s.reserve_a + d.amount_a,
            reserve_b: s.reserve_b + d.amount_b,
            lp_supply: s.lp_supply + minted,
            ..s
        };
        let (a, b) = redeem_amounts(&after, &WithdrawalRequest { lp_amount: minted }).unwrap();
        assert!(a <= d.amount_a && b <= d.amount_b);
    }
    // 100 shares for (100, 500): 1100 * 100 / 1100 and 1500 * 100 / 1100.
    let after = snapshot(1100, 1500, 1100);
    assert_eq!(redeem_amounts(&after, &WithdrawalRequest { lp_amount: 100 }), Ok((100, 136)));
}

#[test]
fn snapshot_well_formedness() {
    assert!(snapshot(0, 0, 0).is_well_formed());
    assert!(snapshot(1, 2, 3).is_well_formed());
    assert!(!snapshot(1, 0, 3).is_well_formed());
    assert!(!snapshot(1, 2, 0).is_well_formed());
}
