use vstd::arithmetic::div_mod::{
    lemma_div_by_multiple, lemma_div_is_ordered, lemma_div_is_ordered_by_denominator,
    lemma_fundamental_div_mod, lemma_multiply_divide_lt,
};
use vstd::prelude::*;

verus! {

/// The ways a curve operation can fail.
#[derive(Debug, Clone, Copy, PartialEq, Eq, Structural)]
pub enum CurveError {
    /// Malformed parameters, or an arithmetic step that would overflow `u128`.
    InvalidConfig,
    /// A step outside `[0, sell_amount]`.
    OutOfRange,
    /// A zero amount where a positive one is required.
    ZeroInput,
    /// A request for more tokens than the curve has left to sell.
    ExceedsPool,
}

/// Parameters from which a curve is derived.
#[derive(Debug, Clone, Copy)]
pub struct CurveConfig {
    /// Total token units that will ever exist.
    pub total_supply: u128,
    /// Token units sold across the curve's step range.
    pub sell_amount: u128,
    /// Virtual token-side reserve.
    pub vt: u128,
    /// Fully diluted valuation wanted once the sale completes, in sats.
    pub mc_target_sats: u128,
}

/// The reserves of a curve at one step; the price is `x / y` sats per token unit.
#[derive(Debug, Clone, Copy)]
pub struct CurveSnapshot {
    /// Tokens sold so far.
    pub step: u128,
    /// Sats-side reserve.
    pub x: u128,
    /// Token-side reserve: `vt` plus the real tokens still for sale.
    pub y: u128,
}

/// A constant-product curve `x * y = k` with virtual token reserves.
#[derive(Debug, Clone, Copy)]
pub struct Curve {
    pub total_supply: u128,
    pub sell_amount: u128,
    pub vt: u128,
    /// Token-side reserve at step 0: `vt + sell_amount`.
    pub y0: u128,
    /// Sats-side reserve at step 0, solved from the market-cap target.
    pub x0: u128,
    /// The invariant `x0 * y0`.
    pub k: u128,
}

impl CurveSnapshot {
    /// Numerator of the price.
    pub fn price_num(&self) -> (r: u128)
        ensures
            r == self.x,
    {
        self.x
    }

    /// Denominator of the price.
    pub fn price_den(&self) -> (r: u128)
        ensures
            r == self.y,
    {
        self.y
    }
}

impl CurveConfig {
    /// `floor(mc_target_sats * vt^2 / ((vt + sell_amount) * total_supply))`.
    pub open spec fn x0_spec(self) -> int {
        (self.mc_target_sats * (self.vt * self.vt)) / ((self.vt + self.sell_amount)
            * self.total_supply)
    }

    /// All parameters are positive, every step of the derivation fits in `u128`,
    /// and the derived sats-side reserve is positive.
    pub open spec fn is_valid(self) -> bool {
        &&& self.total_supply > 0
        &&& self.sell_amount > 0
        &&& self.vt > 0
        &&& self.mc_target_sats > 0
        &&& self.vt + self.sell_amount <= u128::MAX
        &&& self.vt * self.vt <= u128::MAX
        &&& self.mc_target_sats * (self.vt * self.vt) <= u128::MAX
        &&& (self.vt + self.sell_amount) * self.total_supply <= u128::MAX
        &&& self.x0_spec() > 0
        &&& self.x0_spec() * (self.vt + self.sell_amount) <= u128::MAX
    }
}

impl Curve {
    /// The curve's invariant: positive parameters, `y0 = vt + sell_amount`
    /// and `k = x0 * y0`.
    pub open spec fn wf(self) -> bool {
        &&& self.total_supply > 0
        &&& self.sell_amount > 0
        &&& self.vt > 0
        &&& self.x0 > 0
        &&& self.y0 == self.vt + self.sell_amount
        &&& self.k == self.x0 * self.y0
    }

    /// Token-side reserve at `step`.
    pub open spec fn y_spec(self, step: int) -> int {
        self.vt + (self.sell_amount - step)
    }

    /// Sats-side reserve for the token-side reserve `y`.
    pub open spec fn x_spec(self, y: int) -> int {
        self.k as int / y
    }

    /// Tokens bought by paying `sats_in` at `step`.
    pub open spec fn tokens_out_spec(self, step: int, sats_in: int) -> int {
        let y = self.y_spec(step);
        let y_raw = self.k as int / (self.x_spec(y) + sats_in);
        let y_prime = if y_raw < self.vt {
            self.vt as int
        } else {
            y_raw
        };
        y - y_prime
    }

    /// What a buy of `sats_in` at `step` returns: the new step and the tokens out.
    pub open spec fn mint_spec(self, step: u128, sats_in: u128) -> Result<
        (u128, u128),
        CurveError,
    > {
        if sats_in == 0 {
            Err(CurveError::ZeroInput)
        } else if step > self.sell_amount {
            Err(CurveError::OutOfRange)
        } else if self.x_spec(self.y_spec(step as int)) + sats_in > u128::MAX {
            Err(CurveError::InvalidConfig)
        } else {
            let out = self.tokens_out_spec(step as int, sats_in as int);
            let next = if step + out > self.sell_amount {
                self.sell_amount as int
            } else {
                step + out
            };
            Ok((next as u128, out as u128))
        }
    }

    /// The sats-side reserve never falls below `x0` and `x * y <= k`.
    pub proof fn lemma_x_bounds(self, step: int)
        requires
            self.wf(),
            0 <= step <= self.sell_amount,
        ensures
            self.x_spec(self.y_spec(step)) >= self.x0,
            self.x_spec(self.y_spec(step)) * self.y_spec(step) <= self.k,
            self.k < (self.x_spec(self.y_spec(step)) + 1) * self.y_spec(step),
    {
        let y = self.y_spec(step);
        lemma_div_is_ordered_by_denominator(self.k as int, y, self.y0 as int);
        lemma_div_by_multiple(self.x0 as int, self.y0 as int);
        lemma_fundamental_div_mod(self.k as int, y);
        let x = self.k as int / y;
        assert(x * y == y * x) by (nonlinear_arith);
        assert((x + 1) * y == y * x + y) by (nonlinear_arith);
    }

    /// A positive payment buys between zero and all the real tokens left.
    pub proof fn lemma_tokens_bounds(self, step: int, sats_in: int)
        requires
            self.wf(),
            0 <= step <= self.sell_amount,
            sats_in > 0,
        ensures
            0 <= self.tokens_out_spec(step, sats_in) <= self.sell_amount - step,
    {
        let y = self.y_spec(step);
        let x = self.x_spec(y);
        self.lemma_x_bounds(step);
        assert((x + 1) * y <= (x + sats_in) * y) by (nonlinear_arith)
            requires
                sats_in >= 1,
                y > 0,
        ;
        assert(self.k < (x + sats_in) * y);
        assert((x + sats_in) * y == y * (x + sats_in)) by (nonlinear_arith);
        lemma_multiply_divide_lt(self.k as int, x + sats_in, y);
    }
}

impl Curve {
    /// Derives a curve from `cfg`: `y0 = vt + sell_amount`,
    /// `x0 = floor(mc_target_sats * vt^2 / (y0 * total_supply))`, `k = x0 * y0`.
    pub fn new(cfg: CurveConfig) -> (r: Result<Self, CurveError>)
        ensures
            cfg.is_valid() <==> r is Ok,
            !cfg.is_valid() ==> r == Err::<Self, CurveError>(CurveError::InvalidConfig),
            r matches Ok(c) ==> {
                &&& c.wf()
                &&& c.total_supply == cfg.total_supply
                &&& c.sell_amount == cfg.sell_amount
                &&& c.vt == cfg.vt
                &&& c.y0 == cfg.vt + cfg.sell_amount
                &&& c.x0 == cfg.x0_spec()
                &&& c.k == c.x0 * c.y0
            },
    {
        let total_supply = cfg.total_supply;
        let sell_amount = cfg.sell_amount;
        let vt = cfg.vt;
        let mc = cfg.mc_target_sats;
        if total_supply == 0 || sell_amount == 0 || vt == 0 || mc == 0 {
            return Err(CurveError::InvalidConfig);
        }
        let y0 = match vt.checked_add(sell_amount) {
            Some(v) => v,
            None => return Err(CurveError::InvalidConfig),
        };
        let vt_sq = match vt.checked_mul(vt) {
            Some(v) => v,
            None => return Err(CurveError::InvalidConfig),
        };
        let num = match mc.checked_mul(vt_sq) {
            Some(v) => v,
            None => return Err(CurveError::InvalidConfig),
        };
        let den = match y0.checked_mul(total_supply) {
            Some(v) => v,
            None => return Err(CurveError::InvalidConfig),
        };
        assert(den > 0) by (nonlinear_arith)
            requires
                den == y0 * total_supply,
                y0 > 0,
                total_supply > 0,
        ;
        if den == 0 {
            return Err(CurveError::InvalidConfig);
        }
        let x0 = num / den;
        if x0 == 0 {
            return Err(CurveError::InvalidConfig);
        }
        let k = match x0.checked_mul(y0) {
            Some(v) => v,
            None => return Err(CurveError::InvalidConfig),
        };
        Ok(Curve { total_supply, sell_amount, vt, y0, x0, k })
    }

    /// The largest step: `sell_amount`.
    pub fn max_step(&self) -> (r: u128)
        ensures
            r == self.sell_amount,
    {
        self.sell_amount
    }

    /// Token-side reserve at `step`: `vt + (sell_amount - step)`.
    pub fn y_at(&self, step: u128) -> (r: Result<u128, CurveError>)
        requires
            self.wf(),
        ensures
            step > self.sell_amount ==> r == Err::<u128, CurveError>(CurveError::OutOfRange),
            step <= self.sell_amount ==> r == Ok::<u128, CurveError>(
                self.y_spec(step as int) as u128,
            ),
            r matches Ok(y) ==> self.vt <= y <= self.y0,
    {
        if step > self.sell_amount {
            return Err(CurveError::OutOfRange);
        }
        let remaining = self.sell_amount - step;
        Ok(self.vt + remaining)
    }

    /// Sats-side reserve for the token-side reserve `y`: `floor(k / y)`.
    pub fn x_from_y(&self, y: u128) -> (r: u128)
        requires
            y > 0,
        ensures
            r == self.x_spec(y as int),
    {
        self.k / y
    }

    /// The reserves at `step`.
    pub fn snapshot(&self, step: u128) -> (r: Result<CurveSnapshot, CurveError>)
        requires
            self.wf(),
        ensures
            step > self.sell_amount ==> r == Err::<CurveSnapshot, CurveError>(
                CurveError::OutOfRange,
            ),
            step <= self.sell_amount ==> r == Ok::<CurveSnapshot, CurveError>(
                (CurveSnapshot {
                    step,
                    x: self.x_spec(self.y_spec(step as int)) as u128,
                    y: self.y_spec(step as int) as u128,
                }),
            ),
            r matches Ok(s) ==> s.x * s.y <= self.k,
    {
        let y = match self.y_at(step) {
            Ok(y) => y,
            Err(e) => return Err(e),
        };
        let x = self.x_from_y(y);
        proof {
            self.lemma_x_bounds(step as int);
        }
        Ok(CurveSnapshot { step, x, y })
    }

    /// Buys tokens with `sats_in` at `step`; returns the new step and the tokens out.
    pub fn mint(&self, step: u128, sats_in: u128) -> (r: Result<(u128, u128), CurveError>)
        requires
            self.wf(),
        ensures
            r == self.mint_spec(step, sats_in),
            sats_in == 0 ==> r == Err::<(u128, u128), CurveError>(CurveError::ZeroInput),
            r matches Ok((next, out)) ==> next <= self.sell_amount && next == step + out,
    {
        if sats_in == 0 {
            return Err(CurveError::ZeroInput);
        }
        let y = match self.y_at(step) {
            Ok(y) => y,
            Err(e) => return Err(e),
        };
        let x = self.x_from_y(y);
        let x2 = match x.checked_add(sats_in) {
            Some(v) => v,
            None => return Err(CurveError::InvalidConfig),
        };
        proof {
            self.lemma_x_bounds(step as int);
            self.lemma_tokens_bounds(step as int, sats_in as int);
        }
        let y_raw = self.k / x2;
        let y_prime = if y_raw < self.vt {
            self.vt
        } else {
            y_raw
        };
        let dy = y - y_prime;
        let reached = step + dy;
        let new_step = if reached > self.sell_amount {
            self.sell_amount
        } else {
            reached
        };
        Ok((new_step, dy))
    }
}

/// `p` followed by the sequence in `r`, or the error in `r`.
pub open spec fn prepend_ok(p: Seq<(u128, u128)>, r: Result<Seq<(u128, u128)>, CurveError>) -> Result<
    Seq<(u128, u128)>,
    CurveError,
> {
    match r {
        Ok(s) => Ok(p + s),
        Err(e) => Err(e),
    }
}

impl Curve {
    /// Buys with each of `mints` in turn from `step`, each buy starting where
    /// the one before it ended: the `(step before, tokens out)` of every buy,
    /// or the first error.
    pub open spec fn simulate_from(self, step: u128, mints: Seq<u128>) -> Result<
        Seq<(u128, u128)>,
        CurveError,
    >
        decreases mints.len(),
    {
        if mints.len() == 0 {
            Ok(Seq::empty())
        } else {
            match self.mint_spec(step, mints[0]) {
                Err(e) => Err(e),
                Ok((next, out)) => prepend_ok(
                    seq![(step, out)],
                    self.simulate_from(next, mints.drop_first()),
                ),
            }
        }
    }

    /// Applies the buys in `mints` in order from step 0. Fails as a whole on the
    /// first buy that fails.
    pub fn simulate_mints(&self, mints: &[u128]) -> (r: Result<Vec<(u128, u128)>, CurveError>)
        requires
            self.wf(),
        ensures
            match r {
                Ok(v) => self.simulate_from(0, mints@) == Ok::<Seq<(u128, u128)>, CurveError>(v@),
                Err(e) => self.simulate_from(0, mints@) == Err::<Seq<(u128, u128)>, CurveError>(e),
            },
    {
        let mut current_step: u128 = 0;
        let mut results: Vec<(u128, u128)> = Vec::new();
        let n = mints.len();
        let mut i: usize = 0;
        assert(mints@.subrange(0, n as int) =~= mints@);
        while i < n
            invariant
                self.wf(),
                n == mints@.len(),
                0 <= i <= n,
                self.simulate_from(0, mints@) == prepend_ok(
                    results@,
                    self.simulate_from(current_step, mints@.subrange(i as int, n as int)),
                ),
            decreases n - i,
        {
            let amount = mints[i];
            let ghost rest = mints@.subrange(i as int, n as int);
            assert(rest[0] == amount);
            assert(rest.drop_first() =~= mints@.subrange(i + 1, n as int));
            match self.mint(current_step, amount) {
                Err(e) => {
                    return Err(e);
                },
                Ok((next, out)) => {
                    let ghost before = results@;
                    results.push((current_step, out));
                    proof {
                        let tail = self.simulate_from(next, mints@.subrange(i + 1, n as int));
                        match tail {
                            Ok(s) => {
                                assert(before + (seq![(current_step, out)] + s) =~= results@ + s);
                            },
                            Err(_) => {},
                        }
                    }
                    current_step = next;
                },
            }
            i = i + 1;
        }
        assert(results@ + Seq::<(u128, u128)>::empty() =~= results@);
        Ok(results)
    }

    /// Sats raised by selling the whole range: `floor(k / vt) - x0`, or 0 below 0.
    pub fn total_raise_sats(&self) -> (r: u128)
        requires
            self.wf(),
        ensures
            r == (if self.k / self.vt < self.x0 {
                0
            } else {
                self.k / self.vt - self.x0
            }),
    {
        let x_final = self.k / self.vt;
        x_final.saturating_sub(self.x0)
    }

    /// Projected market cap once the sale completes:
    /// `floor(k / vt^2) * total_supply`, saturating at `u128::MAX`.
    pub fn final_mc_sats(&self) -> (r: Result<u128, CurveError>)
        requires
            self.wf(),
        ensures
            self.vt * self.vt > u128::MAX ==> r == Err::<u128, CurveError>(
                CurveError::InvalidConfig,
            ),
            self.vt * self.vt <= u128::MAX ==> r == Ok::<u128, CurveError>(
                (if self.k as int / (self.vt * self.vt) * self.total_supply > u128::MAX {
                    u128::MAX
                } else {
                    (self.k as int / (self.vt * self.vt) * self.total_supply) as u128
                }),
            ),
    {
        let vt_sq = match self.vt.checked_mul(self.vt) {
            Some(v) => v,
            None => return Err(CurveError::InvalidConfig),
        };
        assert(vt_sq > 0) by (nonlinear_arith)
            requires
                vt_sq == self.vt * self.vt,
                self.vt > 0,
        ;
        let p_final = self.k / vt_sq;
        match p_final.checked_mul(self.total_supply) {
            Some(v) => Ok(v),
            None => Ok(u128::MAX),
        }
    }

    /// `floor(step * 100 / total_supply)`, the product saturating at `u128::MAX`.
    pub fn progress_at_step(&self, step: u128) -> (r: u128)
        requires
            self.wf(),
        ensures
            r == (if step * 100 > u128::MAX {
                u128::MAX as int
            } else {
                step * 100
            }) / self.total_supply as int,
    {
        let scaled = match step.checked_mul(100u128) {
            Some(v) => v,
            None => u128::MAX,
        };
        scaled / self.total_supply
    }
}

/// Product of the values in `s`.
pub open spec fn product_of(s: Seq<u128>) -> int
    decreases s.len(),
{
    if s.len() == 0 {
        1
    } else {
        product_of(s.drop_last()) * s.last()
    }
}

/// Sum of the values in `s`.
pub open spec fn sum_of(s: Seq<u128>) -> int
    decreases s.len(),
{
    if s.len() == 0 {
        0
    } else {
        sum_of(s.drop_last()) + s.last()
    }
}

/// The sum of a prefix never exceeds the sum of the whole sequence.
proof fn lemma_sum_prefix_le(s: Seq<u128>, i: int)
    requires
        0 <= i <= s.len(),
    ensures
        0 <= sum_of(s.subrange(0, i)) <= sum_of(s),
    decreases s.len() - i,
{
    if i == s.len() {
        assert(s.subrange(0, i) =~= s);
        lemma_sum_nonneg(s);
    } else {
        lemma_sum_prefix_le(s, i + 1);
        assert(s.subrange(0, i + 1).drop_last() =~= s.subrange(0, i));
        lemma_sum_nonneg(s.subrange(0, i));
    }
}

/// A zero anywhere in `s` makes its product zero.
proof fn lemma_product_zero(s: Seq<u128>, i: int)
    requires
        0 <= i < s.len(),
        s[i] == 0,
    ensures
        product_of(s) == 0,
    decreases s.len(),
{
    if i < s.len() - 1 {
        assert(s.drop_last()[i] == 0);
        lemma_product_zero(s.drop_last(), i);
    }
}

/// Where every value is positive, the product is positive.
proof fn lemma_product_pos(s: Seq<u128>)
    requires
        forall|j: int| 0 <= j < s.len() ==> s[j] >= 1,
    ensures
        product_of(s) >= 1,
    decreases s.len(),
{
    if s.len() > 0 {
        let p = s.drop_last();
        assert forall|j: int| 0 <= j < p.len() implies p[j] >= 1 by {
            assert(p[j] == s[j]);
        }
        lemma_product_pos(p);
        let a = product_of(p);
        let b = s.last() as int;
        assert(a * b >= 1) by (nonlinear_arith)
            requires
                a >= 1,
                b >= 1,
        ;
    }
}

/// Where every value is positive, the product of a prefix never exceeds the
/// product of the whole sequence.
proof fn lemma_product_prefix_le(s: Seq<u128>, i: int)
    requires
        0 <= i <= s.len(),
        forall|j: int| 0 <= j < s.len() ==> s[j] >= 1,
    ensures
        1 <= product_of(s.subrange(0, i)) <= product_of(s),
    decreases s.len() - i,
{
    let p = s.subrange(0, i);
    assert forall|j: int| 0 <= j < p.len() implies p[j] >= 1 by {
        assert(p[j] == s[j]);
    }
    lemma_product_pos(p);
    if i == s.len() {
        assert(p =~= s);
    } else {
        lemma_product_prefix_le(s, i + 1);
        assert(s.subrange(0, i + 1).drop_last() =~= p);
        let a = product_of(p);
        let b = s[i] as int;
        assert(a <= a * b) by (nonlinear_arith)
            requires
                a >= 1,
                b >= 1,
        ;
    }
}

proof fn lemma_sum_nonneg(s: Seq<u128>)
    ensures
        sum_of(s) >= 0,
    decreases s.len(),
{
    if s.len() > 0 {
        lemma_sum_nonneg(s.drop_last());
    }
}

impl Curve {
    /// `floor(product(steps) / sum(steps))`: the product of the steps over their sum.
    pub fn avg_progess(&self, steps: &[u128]) -> (r: u128)
        requires
            product_of(steps@) <= u128::MAX,
            0 < sum_of(steps@) <= u128::MAX,
        ensures
            r == product_of(steps@) / sum_of(steps@),
    {
        let n = steps.len();
        // A zero anywhere makes the whole product zero, whatever its prefixes hold.
        let mut z: usize = 0;
        while z < n
            invariant
                n == steps@.len(),
                0 <= z <= n,
                forall|j: int| 0 <= j < z ==> steps@[j] >= 1,
                0 < sum_of(steps@),
            decreases n - z,
        {
            if steps[z] == 0 {
                proof {
                    lemma_product_zero(steps@, z as int);
                    let d = sum_of(steps@);
                    assert(0int / d == 0) by (nonlinear_arith)
                        requires
                            d > 0,
                    ;
                }
                return 0;
            }
            z = z + 1;
        }
        let mut product: u128 = 1;
        let mut sum: u128 = 0;
        let mut i: usize = 0;
        assert(steps@.subrange(0, 0) =~= Seq::<u128>::empty());
        while i < n
            invariant
                n == steps@.len(),
                0 <= i <= n,
                forall|j: int| 0 <= j < n ==> steps@[j] >= 1,
                product == product_of(steps@.subrange(0, i as int)),
                sum == sum_of(steps@.subrange(0, i as int)),
                product_of(steps@) <= u128::MAX,
                sum_of(steps@) <= u128::MAX,
            decreases n - i,
        {
            let v = steps[i];
            proof {
                assert(steps@.subrange(0, i + 1).drop_last() =~= steps@.subrange(0, i as int));
                lemma_product_prefix_le(steps@, i + 1);
                lemma_sum_prefix_le(steps@, i + 1);
            }
            product = product * v;
            sum = sum + v;
            i = i + 1;
        }
        assert(steps@.subrange(0, n as int) =~= steps@);
        product / sum
    }

    /// Tokens that paying `quote_in` at `step` would buy; nothing is changed.
    pub fn asset_out_given_quote_in(&self, step: u128, quote_in: u128) -> (r: Result<
        u128,
        CurveError,
    >)
        requires
            self.wf(),
        ensures
            r == (match self.mint_spec(step, quote_in) {
                Ok((_, out)) => Ok::<u128, CurveError>(out),
                Err(e) => Err(e),
            }),
    {
        match self.mint(step, quote_in) {
            Ok((_, out)) => Ok(out),
            Err(e) => Err(e),
        }
    }

    /// Sats needed to reach `step` from step 0: `floor(k / y(step)) - x0`.
    pub fn cumulative_quote_to_step(&self, step: u128) -> (r: Result<u128, CurveError>)
        requires
            self.wf(),
        ensures
            step > self.sell_amount ==> r == Err::<u128, CurveError>(CurveError::OutOfRange),
            step <= self.sell_amount ==> r == Ok::<u128, CurveError>(
                (self.x_spec(self.y_spec(step as int)) - self.x0) as u128,
            ),
            r matches Ok(q) ==> q == self.x_spec(self.y_spec(step as int)) - self.x0,
    {
        let y = match self.y_at(step) {
            Ok(y) => y,
            Err(e) => return Err(e),
        };
        proof {
            self.lemma_x_bounds(step as int);
        }
        Ok(self.x_from_y(y) - self.x0)
    }
}

impl Curve {
    /// `s` is the least positive payment at `step` that buys at least `asset_out` tokens.
    pub open spec fn is_least_quote(self, step: u128, asset_out: u128, s: u128) -> bool {
        &&& s > 0
        &&& self.mint_spec(step, s) matches Ok((_, out)) && out >= asset_out
        &&& forall|t: int|
            0 < t < s ==> #[trigger] self.tokens_out_spec(step as int, t) < asset_out
    }

    /// With `c = y(step) - asset_out + 1`, the payment `floor(k / c) + 1 - x(step)`
    /// is the least that buys `asset_out` tokens.
    proof fn lemma_least_quote(self, step: int, asset_out: int)
        requires
            self.wf(),
            0 <= step <= self.sell_amount,
            0 < asset_out <= self.y_spec(step) - self.vt,
        ensures
            ({
                let y = self.y_spec(step);
                let x = self.x_spec(y);
                let q = self.k as int / (y - asset_out + 1);
                &&& x <= q
                &&& q + 1 <= u128::MAX
                &&& self.tokens_out_spec(step, q + 1 - x) >= asset_out
                &&& forall|t: int|
                    0 < t < q + 1 - x ==> #[trigger] self.tokens_out_spec(step, t) < asset_out
            }),
    {
        let y = self.y_spec(step);
        let x = self.x_spec(y);
        let c = y - asset_out + 1;
        let k = self.k as int;
        let q = k / c;
        self.lemma_x_bounds(step);
        lemma_div_is_ordered_by_denominator(k, c, y);
        lemma_div_is_ordered_by_denominator(k, 2, c);
        lemma_fundamental_div_mod(k, c);
        assert(c * q + c == (q + 1) * c) by (nonlinear_arith);
        lemma_multiply_divide_lt(k, q + 1, c);
        assert forall|t: int| 0 < t < q + 1 - x implies #[trigger] self.tokens_out_spec(step, t)
            < asset_out by {
            let m = x + t;
            assert(c * m <= c * q) by (nonlinear_arith)
                requires
                    m <= q,
                    c > 0,
            ;
            assert(c * q <= k) by {
                lemma_fundamental_div_mod(k, c);
            }
            lemma_div_is_ordered(c * m, k, m);
            assert((c * m) / m == c) by {
                lemma_div_by_multiple(c, m);
                assert(c * m == m * c) by (nonlinear_arith);
            }
        }
    }

    /// The least payment at `step` that buys at least `asset_out` tokens.
    pub fn quote_in_given_asset_out(&self, step: u128, asset_out: u128) -> (r: Result<
        u128,
        CurveError,
    >)
        requires
            self.wf(),
        ensures
            step > self.sell_amount ==> r == Err::<u128, CurveError>(CurveError::OutOfRange),
            step <= self.sell_amount && asset_out > self.y_spec(step as int) - self.vt ==> r
                == Err::<u128, CurveError>(CurveError::ExceedsPool),
            step <= self.sell_amount && asset_out == 0 && self.x_spec(self.y_spec(step as int))
                + 1 > u128::MAX ==> r == Err::<u128, CurveError>(CurveError::InvalidConfig),
            step <= self.sell_amount && asset_out == 0 && self.x_spec(self.y_spec(step as int))
                + 1 <= u128::MAX ==> r == Ok::<u128, CurveError>(1),
            step <= self.sell_amount && asset_out <= self.y_spec(step as int) - self.vt && !(
            asset_out == 0 && self.x_spec(self.y_spec(step as int)) + 1 > u128::MAX) ==> (r matches Ok(
                s,
            ) && self.is_least_quote(step, asset_out, s)),
    {
        let y = match self.y_at(step) {
            Ok(y) => y,
            Err(e) => return Err(e),
        };
        if asset_out > y - self.vt {
            return Err(CurveError::ExceedsPool);
        }
        let x = self.x_from_y(y);
        if asset_out == 0 {
            // Every payment buys at least nothing, so the least one is a single sat.
            return match x.checked_add(1) {
                Some(_) => {
                    proof {
                        self.lemma_tokens_bounds(step as int, 1);
                    }
                    Ok(1)
                },
                None => Err(CurveError::InvalidConfig),
            };
        }
        proof {
            self.lemma_least_quote(step as int, asset_out as int);
        }
        let q = self.k / (y - asset_out + 1);
        let s = q + 1 - x;
        proof {
            self.lemma_tokens_bounds(step as int, s as int);
        }
        Ok(s)
    }
}

} // verus!
