//! End-to-end scenarios over the same pool configuration as the unit tests,
//! exercising repeated deposits, a below-target swap, and a full redemption.

use lp_pool::fee::FIXED_POINT_SCALE;
use lp_pool::pool::{LpPool, LpTokenAmount, Percentage, Price, StakedTokenAmount, TokenAmount};

fn fixed(value: f64) -> u64 {
    (value * FIXED_POINT_SCALE as f64) as u64
}

fn make_pool() -> LpPool {
    LpPool::init(
        Price(fixed(1.5)),
        Percentage(fixed(0.001)),
        Percentage(fixed(0.09)),
        TokenAmount(fixed(90.0)),
    )
    .unwrap()
}

#[test]
fn lp_pool_test_init() {
    let lp_pool = make_pool();

    assert_eq!(lp_pool.price.0, fixed(1.5));
    assert_eq!(lp_pool.min_fee.0, fixed(0.001));
    assert_eq!(lp_pool.max_fee.0, fixed(0.09));
    assert_eq!(lp_pool.liquidity_target.0, fixed(90.0));

    // A fresh pool starts fully empty; the first deposit bootstraps the
    // share/reserve ratio 1:1.
    assert_eq!(lp_pool.token_amount.0, 0);
    assert_eq!(lp_pool.st_token_amount.0, 0);
    assert_eq!(lp_pool.lp_token_amount.0, 0);
}

#[test]
fn lp_pool_test_add_liquidity() {
    let mut lp_pool = make_pool();

    let first = lp_pool.add_liquidity(TokenAmount(fixed(100.0))).unwrap();
    assert_eq!(first.0, fixed(100.0));

    // The reserve and the shares grew in step, so a second deposit mints
    // exactly proportionally.
    let second = lp_pool.add_liquidity(TokenAmount(fixed(10.0))).unwrap();
    assert_eq!(second.0, fixed(10.0));

    assert_eq!(lp_pool.token_amount.0, fixed(110.0));
    assert_eq!(lp_pool.lp_token_amount.0, fixed(110.0));
}

#[test]
fn lp_pool_test_swap() {
    let mut lp_pool = make_pool();
    lp_pool.add_liquidity(TokenAmount(fixed(50.0))).unwrap();

    // The reserve sits at 50.0, below the target of 90.0, so the fee rate is
    // 1_000 + 40.0 * 89_000 / 90.0 = 40_555 on a gross payout of 9.0.
    let result = lp_pool.swap(StakedTokenAmount(fixed(6.0))).unwrap();

    assert_eq!(result.0, 8_635_005);
    assert_eq!(lp_pool.token_amount.0, 41_364_995);
    assert_eq!(lp_pool.st_token_amount.0, fixed(6.0));
}

#[test]
fn lp_pool_test_remove_liquidity() {
    let mut lp_pool = make_pool();
    lp_pool.add_liquidity(TokenAmount(fixed(100.0))).unwrap();

    // Burning every outstanding share returns both reserves exactly.
    let result = lp_pool
        .remove_liquidity(LpTokenAmount(fixed(100.0)))
        .unwrap();

    assert_eq!(result.0 .0, fixed(100.0));
    assert_eq!(result.1 .0, 0);
    assert_eq!(lp_pool.token_amount.0, 0);
    assert_eq!(lp_pool.st_token_amount.0, 0);
    assert_eq!(lp_pool.lp_token_amount.0, 0);
}
