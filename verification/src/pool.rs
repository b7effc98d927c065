//! The pool engine: a single aggregate owning the reserves, the outstanding
//! ownership shares and the static configuration, with the three operations
//! that mutate it (`add_liquidity`, `remove_liquidity`, `swap`).

use vstd::prelude::*;
use vstd::arithmetic::div_mod::{
    lemma_div_is_ordered, lemma_div_multiples_vanish, lemma_div_pos_is_pos,
    lemma_fundamental_div_mod, lemma_mod_bound,
};
use crate::fee::{FIXED_POINT_SCALE, fee_rate, spec_fee_rate};

verus! {

/// An amount of the underlying (unstaked) token, fixed-point scaled.
#[derive(Debug, Clone, Copy, PartialEq, Eq, Structural)]
pub struct TokenAmount(pub u64);

/// An amount of the staked token, fixed-point scaled.
#[derive(Debug, Clone, Copy, PartialEq, Eq, Structural)]
pub struct StakedTokenAmount(pub u64);

/// An amount of pool-ownership shares, fixed-point scaled.
#[derive(Debug, Clone, Copy, PartialEq, Eq, Structural)]
pub struct LpTokenAmount(pub u64);

/// The staked-token to underlying-token exchange rate, fixed-point scaled.
#[derive(Debug, Clone, Copy, PartialEq, Eq, Structural)]
pub struct Price(pub u64);

/// A fee rate as a fixed-point fraction: `FIXED_POINT_SCALE` means 100%.
#[derive(Debug, Clone, Copy, PartialEq, Eq, Structural)]
pub struct Percentage(pub u64);

/// The ways an operation rejects a request. Every rejection happens before
/// any state field is written.
#[derive(Debug, Clone, Copy, PartialEq, Eq, Structural)]
pub enum Errors {
    /// A zero-amount deposit.
    InvalidTokenAmount,
    /// A zero-amount swap input.
    InvalidStakedTokenAmount,
    /// Zero shares requested for redemption.
    InvalidLpTokenAmount,
    /// A redemption of more shares than are outstanding, or a swap whose
    /// payout would exceed the underlying reserve.
    InsufficientLiquidity,
    /// A pool configured with `min_fee > max_fee` or a zero liquidity target.
    InvalidConfiguration,
}

/// The pool aggregate: reserves, outstanding shares, and the static
/// configuration fixed at initialization.
#[derive(Debug, Clone, Copy, PartialEq, Eq, Structural)]
pub struct LpPool {
    /// Exchange rate applied by `swap`; set at initialization, never mutated.
    pub price: Price,
    /// Underlying-token reserve held by the pool.
    pub token_amount: TokenAmount,
    /// Staked-token reserve held by the pool; accumulates from swaps.
    pub st_token_amount: StakedTokenAmount,
    /// Total outstanding ownership shares.
    pub lp_token_amount: LpTokenAmount,
    /// Reserve level at which the swap fee is minimal; set at initialization.
    pub liquidity_target: TokenAmount,
    /// Lower fee bound; set at initialization.
    pub min_fee: Percentage,
    /// Upper fee bound; set at initialization.
    pub max_fee: Percentage,
}

impl LpPool {
    /// Well-formedness: the configuration is valid, and every unit of the
    /// underlying reserve is backed by at least one outstanding share (shares
    /// start 1:1 with the first deposit, minting rounds down, and the
    /// underlying reserve only shrinks outside of deposits). Established by
    /// `init` and preserved by every operation.
    pub open spec fn wf(self) -> bool {
        &&& self.min_fee.0 <= self.max_fee.0
        &&& 1 <= self.liquidity_target.0
        &&& self.token_amount.0 <= self.lp_token_amount.0
    }

    /// The static configuration of `other` is that of `self`.
    pub open spec fn same_config(self, other: LpPool) -> bool {
        &&& other.price == self.price
        &&& other.liquidity_target == self.liquidity_target
        &&& other.min_fee == self.min_fee
        &&& other.max_fee == self.max_fee
    }

    /// Shares minted for a deposit of `d` underlying units: 1:1 on an empty
    /// reserve, otherwise proportional to the pre-deposit reserve, rounded
    /// down.
    pub open spec fn spec_minted(self, d: int) -> int {
        if self.token_amount.0 == 0 {
            d
        } else {
            d * self.lp_token_amount.0 / (self.token_amount.0 as int)
        }
    }

    /// Underlying tokens returned for burning `shares` shares, rounded down.
    pub open spec fn spec_tokens_out(self, shares: int) -> int {
        shares * self.token_amount.0 / (self.lp_token_amount.0 as int)
    }

    /// Staked tokens returned for burning `shares` shares, rounded down.
    pub open spec fn spec_staked_out(self, shares: int) -> int {
        shares * self.st_token_amount.0 / (self.lp_token_amount.0 as int)
    }

    /// Gross underlying payout for swapping in `staked` staked tokens, before
    /// the fee: `staked * price`, de-scaled and rounded down.
    pub open spec fn spec_gross_out(self, staked: int) -> int {
        staked * self.price.0 / (FIXED_POINT_SCALE as int)
    }

    /// The fee rate the pool currently charges on a swap.
    pub open spec fn spec_swap_fee_rate(self) -> int {
        spec_fee_rate(
            self.token_amount.0 as int,
            self.liquidity_target.0 as int,
            self.min_fee.0 as int,
            self.max_fee.0 as int,
        )
    }

    /// The fee withheld from a swap of `staked` staked tokens.
    pub open spec fn spec_fee(self, staked: int) -> int {
        self.spec_gross_out(staked) * self.spec_swap_fee_rate() / (FIXED_POINT_SCALE as int)
    }

    /// The net underlying payout of a swap of `staked` staked tokens.
    pub open spec fn spec_net_out(self, staked: int) -> int {
        self.spec_gross_out(staked) - self.spec_fee(staked)
    }

    /// Constructs a pool with the given static parameters and empty reserves.
    /// Rejects a configuration whose fee bounds are inverted or whose
    /// liquidity target is zero.
    pub fn init(
        price: Price,
        min_fee: Percentage,
        max_fee: Percentage,
        liquidity_target: TokenAmount,
    ) -> (result: Result<Self, Errors>)
        ensures
            min_fee.0 > max_fee.0 || liquidity_target.0 == 0 ==> result
                == Err::<LpPool, Errors>(Errors::InvalidConfiguration),
            min_fee.0 <= max_fee.0 && 1 <= liquidity_target.0 ==> result == Ok::<LpPool, Errors>(
                (LpPool {
                    price,
                    token_amount: TokenAmount(0),
                    st_token_amount: StakedTokenAmount(0),
                    lp_token_amount: LpTokenAmount(0),
                    liquidity_target,
                    min_fee,
                    max_fee,
                }),
            ),
            result matches Ok(pool) ==> pool.wf(),
    {
        if min_fee.0 > max_fee.0 || liquidity_target.0 == 0 {
            return Err(Errors::InvalidConfiguration);
        }
        Ok(
            LpPool {
                price,
                token_amount: TokenAmount(0),
                st_token_amount: StakedTokenAmount(0),
                lp_token_amount: LpTokenAmount(0),
                liquidity_target,
                min_fee,
                max_fee,
            },
        )
    }

    /// Deposits underlying tokens and mints ownership shares proportional to
    /// the deposit's part of the pre-deposit reserve (1:1 on an empty
    /// reserve). Rejects a zero deposit, leaving the pool untouched. Never
    /// touches the staked reserve.
    pub fn add_liquidity(&mut self, token_amount: TokenAmount) -> (result: Result<
        LpTokenAmount,
        Errors,
    >)
        requires
            old(self).wf(),
            old(self).token_amount.0 + token_amount.0 <= u64::MAX,
            old(self).lp_token_amount.0 + old(self).spec_minted(token_amount.0 as int)
                <= u64::MAX,
        ensures
            final(self).wf(),
            old(self).same_config(*final(self)),
            token_amount.0 == 0 ==> result == Err::<LpTokenAmount, Errors>(
                Errors::InvalidTokenAmount,
            ) && *final(self) == *old(self),
            1 <= token_amount.0 ==> {
                let minted = old(self).spec_minted(token_amount.0 as int);
                &&& result == Ok::<LpTokenAmount, Errors>((LpTokenAmount(minted as u64)))
                &&& token_amount.0 <= minted
                &&& final(self).token_amount.0 == old(self).token_amount.0 + token_amount.0
                &&& final(self).lp_token_amount.0 == old(self).lp_token_amount.0 + minted
                &&& final(self).st_token_amount == old(self).st_token_amount
            },
    {
        let d = token_amount.0;
        if d == 0 {
            return Err(Errors::InvalidTokenAmount);
        }
        if self.token_amount.0 == 0 {
            self.token_amount = TokenAmount(d);
            self.lp_token_amount = LpTokenAmount(self.lp_token_amount.0 + d);
            return Ok(LpTokenAmount(d));
        }
        let t0 = self.token_amount.0;
        let lp0 = self.lp_token_amount.0;
        proof {
            crate::fee::lemma_u64_mul_fits_u128(d as int, lp0 as int);
            lemma_mint_at_least_deposit(t0 as int, lp0 as int, d as int);
        }
        let minted128: u128 = (d as u128) * (lp0 as u128) / (t0 as u128);
        let minted: u64 = minted128 as u64;
        self.token_amount = TokenAmount(t0 + d);
        self.lp_token_amount = LpTokenAmount(lp0 + minted);
        Ok(LpTokenAmount(minted))
    }

    /// Burns shares and returns the proportional slice of both reserves,
    /// rounded down in the pool's favor. Rejects zero shares, and more shares
    /// than are outstanding, leaving the pool untouched. Burning every
    /// outstanding share returns both reserves exactly.
    pub fn remove_liquidity(&mut self, lp_token_amount: LpTokenAmount) -> (result: Result<
        (TokenAmount, StakedTokenAmount),
        Errors,
    >)
        requires
            old(self).wf(),
        ensures
            final(self).wf(),
            old(self).same_config(*final(self)),
            lp_token_amount.0 == 0 ==> result == Err::<(TokenAmount, StakedTokenAmount), Errors>(
                Errors::InvalidLpTokenAmount,
            ) && *final(self) == *old(self),
            1 <= lp_token_amount.0 && old(self).lp_token_amount.0 < lp_token_amount.0 ==> result
                == Err::<(TokenAmount, StakedTokenAmount), Errors>(Errors::InsufficientLiquidity)
                && *final(self) == *old(self),
            1 <= lp_token_amount.0 && lp_token_amount.0 <= old(self).lp_token_amount.0 ==> {
                let tokens_out = old(self).spec_tokens_out(lp_token_amount.0 as int);
                let staked_out = old(self).spec_staked_out(lp_token_amount.0 as int);
                &&& result == Ok::<(TokenAmount, StakedTokenAmount), Errors>(
                    ((TokenAmount(tokens_out as u64), StakedTokenAmount(staked_out as u64))),
                )
                &&& 0 <= tokens_out <= old(self).token_amount.0
                &&& 0 <= staked_out <= old(self).st_token_amount.0
                &&& final(self).token_amount.0 == old(self).token_amount.0 - tokens_out
                &&& final(self).st_token_amount.0 == old(self).st_token_amount.0 - staked_out
                &&& final(self).lp_token_amount.0 == old(self).lp_token_amount.0
                    - lp_token_amount.0
                &&& lp_token_amount.0 == old(self).lp_token_amount.0 ==> tokens_out == old(
                    self,
                ).token_amount.0 && staked_out == old(self).st_token_amount.0
            },
    {
        let s = lp_token_amount.0;
        if s == 0 {
            return Err(Errors::InvalidLpTokenAmount);
        }
        if s > self.lp_token_amount.0 {
            return Err(Errors::InsufficientLiquidity);
        }
        let t0 = self.token_amount.0;
        let st0 = self.st_token_amount.0;
        let lp0 = self.lp_token_amount.0;
        proof {
            crate::fee::lemma_u64_mul_fits_u128(s as int, t0 as int);
            crate::fee::lemma_u64_mul_fits_u128(s as int, st0 as int);
            lemma_payout_le_reserve(t0 as int, lp0 as int, s as int);
            lemma_payout_le_reserve(st0 as int, lp0 as int, s as int);
            lemma_backing_preserved(t0 as int, lp0 as int, s as int);
            if s == lp0 {
                lemma_full_burn_returns_reserve(t0 as int, lp0 as int);
                lemma_full_burn_returns_reserve(st0 as int, lp0 as int);
            }
        }
        let tokens128: u128 = (s as u128) * (t0 as u128) / (lp0 as u128);
        let staked128: u128 = (s as u128) * (st0 as u128) / (lp0 as u128);
        let tokens_out = tokens128 as u64;
        let staked_out = staked128 as u64;
        self.token_amount = TokenAmount(t0 - tokens_out);
        self.st_token_amount = StakedTokenAmount(st0 - staked_out);
        self.lp_token_amount = LpTokenAmount(lp0 - s);
        Ok((TokenAmount(tokens_out), StakedTokenAmount(staked_out)))
    }

    /// Exchanges staked tokens for underlying tokens at the configured price,
    /// less the fee the current reserve level commands. Rejects a zero input,
    /// and a payout the underlying reserve cannot cover, leaving the pool
    /// untouched.
    ///
    /// The caller keeps the arithmetic inside `u64`: the gross payout and the
    /// grown staked reserve must fit, and the fee must not exceed the gross
    /// payout (guaranteed whenever `max_fee` is at most 100%; see
    /// [`lemma_fee_le_gross`]).
    pub fn swap(&mut self, staked_token_amount: StakedTokenAmount) -> (result: Result<
        TokenAmount,
        Errors,
    >)
        requires
            old(self).wf(),
            old(self).spec_gross_out(staked_token_amount.0 as int) <= u64::MAX,
            old(self).st_token_amount.0 + staked_token_amount.0 <= u64::MAX,
            old(self).spec_fee(staked_token_amount.0 as int) <= old(self).spec_gross_out(
                staked_token_amount.0 as int,
            ),
        ensures
            final(self).wf(),
            old(self).same_config(*final(self)),
            staked_token_amount.0 == 0 ==> result == Err::<TokenAmount, Errors>(
                Errors::InvalidStakedTokenAmount,
            ) && *final(self) == *old(self),
            1 <= staked_token_amount.0 ==> {
                let net = old(self).spec_net_out(staked_token_amount.0 as int);
                &&& 0 <= net
                &&& old(self).token_amount.0 < net ==> result == Err::<TokenAmount, Errors>(
                    Errors::InsufficientLiquidity,
                ) && *final(self) == *old(self)
                &&& net <= old(self).token_amount.0 ==> {
                    &&& result == Ok::<TokenAmount, Errors>((TokenAmount(net as u64)))
                    &&& final(self).token_amount.0 == old(self).token_amount.0 - net
                    &&& final(self).st_token_amount.0 == old(self).st_token_amount.0
                        + staked_token_amount.0
                    &&& final(self).lp_token_amount == old(self).lp_token_amount
                }
            },
    {
        let staked = staked_token_amount.0;
        if staked == 0 {
            return Err(Errors::InvalidStakedTokenAmount);
        }
        proof {
            crate::fee::lemma_u64_mul_fits_u128(staked as int, self.price.0 as int);
        }
        let gross128: u128 = (staked as u128) * (self.price.0 as u128) / (FIXED_POINT_SCALE
            as u128);
        let gross: u64 = gross128 as u64;
        let rate: u64 = fee_rate(
            self.token_amount.0,
            self.liquidity_target.0,
            self.min_fee.0,
            self.max_fee.0,
        );
        proof {
            crate::fee::lemma_u64_mul_fits_u128(gross as int, rate as int);
            lemma_div_pos_is_pos(gross as int * rate as int, FIXED_POINT_SCALE as int);
        }
        let fee128: u128 = (gross as u128) * (rate as u128) / (FIXED_POINT_SCALE as u128);
        let fee: u64 = fee128 as u64;
        let net: u64 = gross - fee;
        if net > self.token_amount.0 {
            return Err(Errors::InsufficientLiquidity);
        }
        self.token_amount = TokenAmount(self.token_amount.0 - net);
        self.st_token_amount = StakedTokenAmount(self.st_token_amount.0 + staked);
        Ok(TokenAmount(net))
    }
}

/// Whenever the configured `max_fee` is at most 100%, the fee a swap withholds
/// never exceeds its gross payout, so the net payout is never negative.
pub proof fn lemma_fee_le_gross(pool: LpPool, staked: int)
    requires
        pool.wf(),
        pool.max_fee.0 <= FIXED_POINT_SCALE,
        0 <= staked,
    ensures
        0 <= pool.spec_fee(staked) <= pool.spec_gross_out(staked),
{
    let gross = pool.spec_gross_out(staked);
    let rate = pool.spec_swap_fee_rate();
    assert(0 <= staked * pool.price.0) by (nonlinear_arith)
        requires
            0 <= staked,
            0 <= pool.price.0,
    ;
    lemma_div_pos_is_pos(staked * pool.price.0, FIXED_POINT_SCALE as int);
    crate::fee::lemma_fee_rate_bounds(
        pool.token_amount.0 as int,
        pool.liquidity_target.0 as int,
        pool.min_fee.0 as int,
        pool.max_fee.0 as int,
    );
    assert(0 <= gross * rate) by (nonlinear_arith)
        requires
            0 <= gross,
            0 <= rate,
    ;
    lemma_div_pos_is_pos(gross * rate, FIXED_POINT_SCALE as int);
    assert(gross * rate <= (FIXED_POINT_SCALE as int) * gross) by (nonlinear_arith)
        requires
            0 <= gross,
            0 <= rate <= FIXED_POINT_SCALE,
    ;
    lemma_div_is_ordered(gross * rate, (FIXED_POINT_SCALE as int) * gross, FIXED_POINT_SCALE as int);
    lemma_div_multiples_vanish(gross, FIXED_POINT_SCALE as int);
}

/// Conservation: adding liquidity and immediately redeeming every freshly
/// minted share returns the deposited underlying up to one unit of
/// rounding-down loss, together with the floor of the pro-rata claim the new
/// shares hold on the staked reserve.
///
/// The pool must not have had its underlying reserve drained to zero by swaps
/// while shares remain outstanding: on such a pool a fresh deposit
/// re-bootstraps the share price 1:1 and is diluted against the surviving
/// shares, so its redemption value can fall arbitrarily short of the deposit.
pub proof fn lemma_add_remove_conservation(pool: LpPool, deposit: TokenAmount)
    requires
        pool.wf(),
        1 <= deposit.0,
        pool.token_amount.0 == 0 ==> pool.lp_token_amount.0 == 0,
        pool.token_amount.0 + deposit.0 <= u64::MAX,
        pool.lp_token_amount.0 + pool.spec_minted(deposit.0 as int) <= u64::MAX,
    ensures
        ({
            let minted = pool.spec_minted(deposit.0 as int);
            let after = LpPool {
                token_amount: TokenAmount((pool.token_amount.0 + deposit.0) as u64),
                lp_token_amount: LpTokenAmount((pool.lp_token_amount.0 + minted) as u64),
                ..pool
            };
            &&& deposit.0 <= minted <= after.lp_token_amount.0
            &&& after.wf()
            &&& deposit.0 - 1 <= after.spec_tokens_out(minted) <= deposit.0
            &&& after.spec_staked_out(minted) * after.lp_token_amount.0 <= minted
                * pool.st_token_amount.0 < (after.spec_staked_out(minted) + 1)
                * after.lp_token_amount.0
        }),
{
    let d = deposit.0 as int;
    let t0 = pool.token_amount.0 as int;
    let lp0 = pool.lp_token_amount.0 as int;
    let st0 = pool.st_token_amount.0 as int;
    let minted = pool.spec_minted(d);
    if t0 == 0 {
        let lp1 = d;
        lemma_div_multiples_vanish(d, d);
        lemma_div_multiples_vanish(st0, d);
        assert(st0 * d <= d * st0 < (st0 + 1) * d) by (nonlinear_arith)
            requires
                1 <= d,
        ;
    } else {
        assert(0 <= d * lp0) by (nonlinear_arith)
            requires
                0 <= d,
                0 <= lp0,
        ;
        lemma_div_pos_is_pos(d * lp0, t0);
        lemma_fundamental_div_mod(d * lp0, t0);
        lemma_mod_bound(d * lp0, t0);
        let r0 = (d * lp0) % t0;
        lemma_mint_at_least_deposit(t0, lp0, d);
        let token1 = t0 + d;
        let lp1 = lp0 + minted;
        assert(minted * token1 <= lp1 * d) by (nonlinear_arith)
            requires
                d * lp0 == t0 * minted + r0,
                0 <= r0,
                token1 == t0 + d,
                lp1 == lp0 + minted,
        ;
        lemma_div_is_ordered(minted * token1, lp1 * d, lp1);
        lemma_div_multiples_vanish(d, lp1);
        assert(lp1 * (d - 1) <= minted * token1) by (nonlinear_arith)
            requires
                d * lp0 == t0 * minted + r0,
                r0 < t0,
                t0 <= lp0,
                d <= minted,
                lp1 == lp0 + minted,
                token1 == t0 + d,
                1 <= t0,
                1 <= d,
        ;
        lemma_div_is_ordered(lp1 * (d - 1), minted * token1, lp1);
        lemma_div_multiples_vanish(d - 1, lp1);
        assert(0 <= minted * token1) by (nonlinear_arith)
            requires
                0 <= minted,
                0 <= token1,
        ;
        lemma_div_pos_is_pos(minted * token1, lp1);
        lemma_fundamental_div_mod(minted * st0, lp1);
        lemma_mod_bound(minted * st0, lp1);
        let q = minted * st0 / lp1;
        assert(q * lp1 <= minted * st0 < (q + 1) * lp1) by (nonlinear_arith)
            requires
                minted * st0 == lp1 * q + (minted * st0) % lp1,
                0 <= (minted * st0) % lp1 < lp1,
        ;
    }
}

/// Proportionality: right after a deposit of `d` mints `m` shares, the new
/// shares' fraction of all outstanding shares equals the deposit's fraction
/// of the grown underlying reserve, up to one truncation unit:
/// `0 <= d * lp' - m * token' < token'`.
///
/// As with [`lemma_add_remove_conservation`], a pool whose underlying reserve
/// was drained to zero by swaps while shares remain outstanding is excluded:
/// there the 1:1 re-bootstrap deliberately ignores the surviving shares.
pub proof fn lemma_mint_proportionality(pool: LpPool, deposit: TokenAmount)
    requires
        pool.wf(),
        1 <= deposit.0,
        pool.token_amount.0 == 0 ==> pool.lp_token_amount.0 == 0,
    ensures
        ({
            let minted = pool.spec_minted(deposit.0 as int);
            let token1 = pool.token_amount.0 + deposit.0;
            let lp1 = pool.lp_token_amount.0 + minted;
            0 <= deposit.0 * lp1 - minted * token1 < token1
        }),
{
    let d = deposit.0 as int;
    let t0 = pool.token_amount.0 as int;
    let lp0 = pool.lp_token_amount.0 as int;
    let minted = pool.spec_minted(d);
    if t0 == 0 {
        assert(d * (lp0 + d) - d * (t0 + d) == 0) by (nonlinear_arith)
            requires
                lp0 == 0,
                t0 == 0,
        ;
    } else {
        lemma_fundamental_div_mod(d * lp0, t0);
        lemma_mod_bound(d * lp0, t0);
        let r0 = (d * lp0) % t0;
        assert(d * (lp0 + minted) - minted * (t0 + d) == r0) by (nonlinear_arith)
            requires
                d * lp0 == t0 * minted + r0,
        ;
    }
}

/// A pro-rata payout for at most the outstanding shares never exceeds the
/// reserve it is drawn from: `s * reserve / lp <= reserve`.
proof fn lemma_payout_le_reserve(reserve: int, lp: int, s: int)
    requires
        0 <= reserve,
        1 <= lp,
        0 <= s <= lp,
    ensures
        0 <= s * reserve / lp <= reserve,
{
    assert(0 <= s * reserve) by (nonlinear_arith)
        requires
            0 <= s,
            0 <= reserve,
    ;
    lemma_div_pos_is_pos(s * reserve, lp);
    assert(s * reserve <= lp * reserve) by (nonlinear_arith)
        requires
            s <= lp,
            0 <= reserve,
    ;
    lemma_div_is_ordered(s * reserve, lp * reserve, lp);
    lemma_div_multiples_vanish(reserve, lp);
}

/// Burning every outstanding share pays out the whole reserve exactly:
/// `lp * reserve / lp == reserve`.
proof fn lemma_full_burn_returns_reserve(reserve: int, lp: int)
    requires
        0 <= reserve,
        1 <= lp,
    ensures
        lp * reserve / lp == reserve,
{
    lemma_div_multiples_vanish(reserve, lp);
}

/// Burning `s` of `lp` shares takes no more from the backing than it takes
/// from the shares: afterwards the underlying reserve is still covered,
/// `token - s * token / lp <= lp - s`.
proof fn lemma_backing_preserved(token: int, lp: int, s: int)
    requires
        0 <= token <= lp,
        1 <= s <= lp,
    ensures
        token - s * token / lp <= lp - s,
{
    let q = s * token / lp;
    let r = (s * token) % lp;
    lemma_fundamental_div_mod(s * token, lp);
    lemma_mod_bound(s * token, lp);
    assert(token - q <= lp - s) by (nonlinear_arith)
        requires
            s * token == lp * q + r,
            0 <= r < lp,
            1 <= s <= lp,
            0 <= token <= lp,
    ;
}

/// When every unit of a non-empty reserve is backed by at least one share, a
/// deposit of `d` mints at least `d` shares: `d <= d * lp / token`.
proof fn lemma_mint_at_least_deposit(token: int, lp: int, d: int)
    requires
        1 <= token <= lp,
        0 <= d,
    ensures
        d <= d * lp / token,
{
    assert(token * d <= d * lp) by (nonlinear_arith)
        requires
            token <= lp,
            0 <= d,
    ;
    lemma_div_is_ordered(token * d, d * lp, token);
    lemma_div_multiples_vanish(d, token);
}

} // verus!
