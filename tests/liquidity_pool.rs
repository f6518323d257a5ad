use digital_nomad_exchange::{LPDepositRequest, LiquidityPool, PoolError};

#[test]
fn test_calculate_lp_token_amount_for_initial_deposit() {
    let deposit_request = LPDepositRequest {
        token_a_balance: 0,
        token_a_decimals: 9,
        token_b_balance: 0,
        token_b_decimals: 9,
        lp_token_balance: 0,
        lp_token_decimals: 9,
        token_a_amount: 1000,
        token_b_amount: 1000,
    };
    let amount_to_mint = LiquidityPool::calculate_lp_amount_to_mint(deposit_request);
    assert_eq!(amount_to_mint, Ok(1000), "Initial deposit should mint 1000 LP tokens");
}

#[test]
fn test_calculate_lp_token_amount_for_standard_deposit() {
    let deposit_request = LPDepositRequest {
        token_a_balance: 1000,
        token_a_decimals: 9,
        token_b_balance: 1000,
        token_b_decimals: 9,
        lp_token_balance: 1000,
        lp_token_decimals: 9,
        token_a_amount: 500,
        token_b_amount: 500,
    };
    let change_token_a = deposit_request.token_a_amount as f64 / deposit_request.token_a_balance as f64;
    let change_token_b = deposit_request.token_b_amount as f64 / deposit_request.token_b_balance as f64;
    let expected_amount = (deposit_request.lp_token_balance as f64 * f64::min(change_token_a, change_token_b)) as u64;
    // Should be 1000 * 0.5 = 500
    assert_eq!(expected_amount, 500, "Standard deposit should mint 500 LP tokens");
    let amount_to_mint = LiquidityPool::calculate_lp_amount_to_mint(deposit_request);
    assert_eq!(amount_to_mint, Ok(expected_amount), "Standard deposit should mint 500 LP tokens");
}

#[test]
fn test_calculate_lp_token_amount_for_unequal_deposit() {
    let deposit_request = LPDepositRequest {
        token_a_balance: 1000,
        token_a_decimals: 9,
        token_b_balance: 1000,
        token_b_decimals: 9,
        lp_token_balance: 1000,
        lp_token_decimals: 9,
        token_a_amount: 100,
        token_b_amount: 500,
    };
    let change_token_a = deposit_request.token_a_amount as f64 / deposit_request.token_a_balance as f64;
    let change_token_b = deposit_request.token_b_amount as f64 / deposit_request.token_b_balance as f64;
    let expected_amount = (deposit_request.lp_token_balance as f64 * f64::min(change_token_a, change_token_b)) as u64;
    // Should be 1000 * 0.1 = 100
    assert_eq!(expected_amount, 100, "Standard deposit should mint 500 LP tokens");
    let amount_to_mint = LiquidityPool::calculate_lp_amount_to_mint(deposit_request);
    assert_eq!(amount_to_mint, Ok(expected_amount), "Standard deposit should mint 500 LP tokens");
}

#[test]
fn test_calculate_lp_token_amount_initial_large_amounts() {
    let deposit_request = LPDepositRequest {
        token_a_balance: 0,
        token_a_decimals: 9,
        token_b_balance: 0,
        token_b_decimals: 9,
        lp_token_balance: 1_000_000_000,
        lp_token_decimals: 9,
        token_a_amount: 500_000_000_000,
        token_b_amount: 500_000_000_000,
    };
    let expected_amount = (((deposit_request.token_a_amount as f64 / 10f64.powi(deposit_request.token_a_decimals as i32)
        * deposit_request.token_b_amount as f64 / 10f64.powi(deposit_request.token_b_decimals as i32)).sqrt())
        * 10f64.powi(9)) as u64;
    // Empty reserves beside a non-zero LP supply are an invalid pool state;
    // the bootstrap rule itself gives the expected amount.
    let bootstrap = LiquidityPool::calculate_lp_token_amount_for_initial_deposit(deposit_request);
    assert_eq!(bootstrap, Ok(expected_amount as u64), "Standard deposit should mint 500 LP tokens");
    let amount_to_mint = LiquidityPool::calculate_lp_amount_to_mint(deposit_request);
    assert_eq!(amount_to_mint, Err(PoolError::InvalidPoolState));
}

#[test]
fn test_calculate_lp_tokens_amount_initial_different_decimals() {
    let deposit_request = LPDepositRequest {
        token_a_balance: 0,
        token_a_decimals: 6,
        token_b_balance: 0,
        token_b_decimals: 9,
        lp_token_balance: 1_000_000_000,
        lp_token_decimals: 9,
        token_a_amount: 500_000_000_000,
        token_b_amount: 500_000_000_000,
    };
    let expected_amount = (((deposit_request.token_a_amount as f64 / 10f64.powi(deposit_request.token_a_decimals as i32)
        * deposit_request.token_b_amount as f64 / 10f64.powi(deposit_request.token_b_decimals as i32)).sqrt())
        * 10f64.powi(9)) as u64;
    // Empty reserves beside a non-zero LP supply are an invalid pool state;
    // the bootstrap rule itself gives the expected amount.
    let bootstrap = LiquidityPool::calculate_lp_token_amount_for_initial_deposit(deposit_request);
    assert_eq!(bootstrap, Ok(expected_amount as u64), "Standard deposit should mint 500 LP tokens");
    let amount_to_mint = LiquidityPool::calculate_lp_amount_to_mint(deposit_request);
    assert_eq!(amount_to_mint, Err(PoolError::InvalidPoolState));
}

#[test]
fn test_calculate_lp_tokens_amount_different_decimals() {
    let deposit_request = LPDepositRequest {
        token_a_balance: 1000,
        token_a_decimals: 3,
        token_b_balance: 1000,
        token_b_decimals: 9,
        lp_token_balance: 1000,
        lp_token_decimals: 9,
        token_a_amount: 500,
        token_b_amount: 500,
    };
    let change_token_a = deposit_request.token_a_amount as f64 / deposit_request.token_a_balance as f64;
    let change_token_b = deposit_request.token_b_amount as f64 / deposit_request.token_b_balance as f64;
    let expected_amount = (deposit_request.lp_token_balance as f64 * f64::min(change_token_a, change_token_b)) as u64;
    // Should be 1000 * 0.5 = 500
    assert_eq!(expected_amount, 500, "Deposit should mint 500 LP tokens");
    let amount_to_mint = LiquidityPool::calculate_lp_amount_to_mint(deposit_request);
    assert_eq!(amount_to_mint, Ok(expected_amount), "Deposit should mint 500 LP tokens");
}

#[test]
fn test_remove_liquidity_standard_withdrawal() {
    let lp_token_amount = 100;
    let lp_token_supply = 1_000;
    let token_a_balance = 1_000;
    let token_b_balance = 1_000;
    let (amount_a, amount_b) = LiquidityPool::calculate_token_amount_to_remove(
        lp_token_amount, lp_token_supply, token_a_balance, token_b_balance).unwrap();
    assert_eq!(amount_a, 100, "Should withdraw 10 token A");
    assert_eq!(amount_b, 100, "Should withdraw 10 token B");
}

#[test]
fn test_remove_liquidity_withdrawal_unequal_amounts() {
    let lp_token_amount = 100;
    let lp_token_supply = 1_300;
    let token_a_balance = 13_400;
    let token_b_balance = 342;
    let (amount_a, amount_b) = LiquidityPool::calculate_token_amount_to_remove(
        lp_token_amount, lp_token_supply, token_a_balance, token_b_balance).unwrap();
    assert_eq!(amount_a, 1030, "Should withdraw 100 token A");
    assert_eq!(amount_b, 26, "Should withdraw 100 token B");
}

#[test]
fn test_remove_liquidity_withdrawal_large_amounts() {
    let lp_token_amount = 100;
    let lp_token_supply = 1_000;
    let token_a_balance = 1_000 * 10u64.pow(9);
    let token_b_balance = 1_000 * 10u64.pow(9);
    let (amount_a, amount_b) = LiquidityPool::calculate_token_amount_to_remove(
        lp_token_amount, lp_token_supply, token_a_balance, token_b_balance).unwrap();
    assert_eq!(amount_a, 100 * 10u64.pow(9), "Should withdraw 100 token A");
    assert_eq!(amount_b, 100 * 10u64.pow(9), "Should withdraw 100 token B");
}

#[test]
fn test_calculate_token_swap_amount() {
    let token_balance_a = 1000;
    let token_balance_b = 1000;
    let amount = 100;
    let fee_percentage = 0.003;
    let amount_after_fee = amount as f64 * (1.0 - fee_percentage);
    let expected_amount_b = (amount_after_fee * token_balance_b as f64 / (token_balance_a as f64 + amount_after_fee)) as u64;
    let amount_b = LiquidityPool::calculate_swap(token_balance_a, 9, token_balance_b, 9, amount);
    assert_eq!(amount_b, Ok(expected_amount_b), "Should swap 90.66 ~round down to 90 token B");
}

#[test]
fn test_calculate_token_swap_amount_unequal_pool() {
    let token_balance_a = 34556;
    let token_balance_b = 12345;
    let amount = 100;
    let amount_b = LiquidityPool::calculate_swap(token_balance_a, 9, token_balance_b, 9, amount);
    assert_eq!(amount_b, Ok(35), "Should swap 35.5 ~35 token B");
}

#[test]
fn test_calculate_token_swap_amount_large_numbers() {
    let token_balance_a = 1000 * 10u64.pow(9);
    let token_balance_b = 1000 * 10u64.pow(9);
    let amount = 100 * 10u64.pow(9);
    let fee_percentage = 0.003;
    let amount_after_fee = amount as f64 * (1.0 - fee_percentage);
    let expected_amount_b = (amount_after_fee * token_balance_b as f64 / (token_balance_a as f64 + amount_after_fee)) as u64;
    let amount_b = LiquidityPool::calculate_swap(token_balance_a, 9, token_balance_b, 9, amount);
    assert_eq!(amount_b, Ok(expected_amount_b), "Should swap large number of token B");
}

#[test]
fn test_calculate_token_swap_integration_parity() {
    let token_balance_a = 1_000_000_000;
    let token_balance_b = 500_000_000;
    let amount = 100_000;
    let fee_percentage = 0.003;
    let amount_after_fee = amount as f64 * (1.0 - fee_percentage);
    let expected_amount_b = (amount_after_fee * token_balance_b as f64 / (token_balance_a as f64 + amount_after_fee)) as u64;
    let amount_b = LiquidityPool::calculate_swap(token_balance_a, 9, token_balance_b, 9, amount);
    assert_eq!(amount_b, Ok(expected_amount_b), "Should swap speicifc number of token B: 49845");
}

#[test]
fn test_liquidity_pool_size() {
    // Six 32-byte identifiers.
    let size = std::mem::size_of::<LiquidityPool>();
    println!("LiquidityPool size: {}", size);
    assert_eq!(size, 192);
}
