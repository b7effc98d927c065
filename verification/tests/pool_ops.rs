//! Unit tests for the four pool operations: a pool priced at 1.5 with a
//! 0.1%..9% fee band and a liquidity target of 90.0.

use lp_pool::fee::FIXED_POINT_SCALE;
use lp_pool::pool::{LpPool, LpTokenAmount, Percentage, Price, StakedTokenAmount, TokenAmount};

fn to_fixed_point(value: f64) -> u64 {
    (value * FIXED_POINT_SCALE as f64) as u64
}

fn create_test_pool() -> LpPool {
    let price = Price(to_fixed_point(1.5));
    let min_fee = Percentage(to_fixed_point(0.001)); // 0.1%
    let max_fee = Percentage(to_fixed_point(0.09)); // 9%
    let liquidity_target = TokenAmount(to_fixed_point(90.0));

    LpPool::init(price, min_fee, max_fee, liquidity_target).unwrap()
}

#[test]
fn test_init() {
    let price = Price(to_fixed_point(1.5));
    let min_fee = Percentage(to_fixed_point(0.001));
    let max_fee = Percentage(to_fixed_point(0.09));
    let liquidity_target = TokenAmount(to_fixed_point(90.0));

    let lp_pool = LpPool::init(price, min_fee, max_fee, liquidity_target).unwrap();

    assert_eq!(lp_pool.price.0, to_fixed_point(1.5));
    assert_eq!(lp_pool.min_fee.0, to_fixed_point(0.001));
    assert_eq!(lp_pool.max_fee.0, to_fixed_point(0.09));
    assert_eq!(lp_pool.liquidity_target.0, to_fixed_point(90.0));

    assert_eq!(lp_pool.token_amount.0, 0);
    assert_eq!(lp_pool.st_token_amount.0, 0);
    assert_eq!(lp_pool.lp_token_amount.0, 0);
}

#[test]
fn test_add_liquidity() {
    let mut lp_pool = create_test_pool();
    let token_amount = TokenAmount(to_fixed_point(100.0));

    let result = lp_pool.add_liquidity(token_amount).unwrap();

    assert_eq!(lp_pool.token_amount.0, to_fixed_point(100.0));
    assert_eq!(lp_pool.lp_token_amount.0, to_fixed_point(100.0));
    assert_eq!(result.0, to_fixed_point(100.0)); // Minted LP tokens
}

#[test]
fn test_swap() {
    let mut lp_pool = create_test_pool();
    lp_pool
        .add_liquidity(TokenAmount(to_fixed_point(100.0)))
        .unwrap();

    let staked_token_amount = StakedTokenAmount(to_fixed_point(6.0));

    let result = lp_pool.swap(staked_token_amount).unwrap();

    // Gross payout 9.0; the pool sits at 100.0, above its target of 90.0,
    // so the fee rate is 90_000 - 10.0 * 89_000 / 90.0 = 80_112.
    assert_eq!(result.0, 8_278_992);
    assert_eq!(lp_pool.token_amount.0, 91_721_008);
    assert_eq!(lp_pool.st_token_amount.0, to_fixed_point(6.0));
}

#[test]
fn test_remove_liquidity() {
    let mut lp_pool = create_test_pool();
    lp_pool
        .add_liquidity(TokenAmount(to_fixed_point(100.0)))
        .unwrap();
    lp_pool.swap(StakedTokenAmount(to_fixed_point(6.0))).unwrap();

    let lp_token_amount = LpTokenAmount(to_fixed_point(50.0));

    let result = lp_pool.remove_liquidity(lp_token_amount).unwrap();

    // Half of the shares claim half of each reserve, rounded down.
    assert_eq!(result.0 .0, 45_860_504); // Returned tokens
    assert_eq!(result.1 .0, 3_000_000); // Returned staked tokens
    assert_eq!(lp_pool.token_amount.0, 45_860_504);
    assert_eq!(lp_pool.st_token_amount.0, 3_000_000);
    assert_eq!(lp_pool.lp_token_amount.0, to_fixed_point(50.0));
}
