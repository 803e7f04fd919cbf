use crate::curve::{Curve, CurveError};
use vstd::arithmetic::div_mod::lemma_div_is_ordered_by_denominator;
use vstd::prelude::*;

verus! {

/// At every step of the range the token-side reserve is `vt + (sell_amount - step)`
/// and the reserves never exceed the invariant: `x(step) * y(step) <= k`.
pub proof fn lemma_reserves_at_step(c: Curve, step: u128)
    requires
        c.wf(),
        step <= c.sell_amount,
    ensures
        c.y_spec(step as int) == c.vt + (c.sell_amount - step),
        c.x_spec(c.y_spec(step as int)) * c.y_spec(step as int) <= c.k,
{
    c.lemma_x_bounds(step as int);
}

/// At a fixed step, paying more never buys fewer tokens; and where a payment
/// succeeds, every smaller positive payment succeeds too.
pub proof fn lemma_tokens_out_monotone(c: Curve, step: u128, sats_in1: u128, sats_in2: u128)
    requires
        c.wf(),
        sats_in1 <= sats_in2,
    ensures
        sats_in1 > 0 && c.mint_spec(step, sats_in2) is Ok ==> c.mint_spec(step, sats_in1) is Ok,
        match (c.mint_spec(step, sats_in1), c.mint_spec(step, sats_in2)) {
            (Ok((_, out1)), Ok((_, out2))) => out1 <= out2,
            _ => true,
        },
{
    if sats_in1 > 0 && step <= c.sell_amount {
        let y = c.y_spec(step as int);
        let x = c.x_spec(y);
        c.lemma_x_bounds(step as int);
        lemma_div_is_ordered_by_denominator(c.k as int, x + sats_in1, x + sats_in2);
        c.lemma_tokens_bounds(step as int, sats_in1 as int);
        c.lemma_tokens_bounds(step as int, sats_in2 as int);
    }
}

/// Selling the whole range raises exactly `floor(k / vt) - x0`, which is never
/// negative, so the saturating subtraction never clamps.
pub proof fn lemma_total_raise_is_full_range(c: Curve)
    requires
        c.wf(),
    ensures
        c.x_spec(c.vt as int) >= c.x0,
        c.x_spec(c.vt as int) - c.x0 == (if c.k / c.vt < c.x0 {
            0
        } else {
            c.k / c.vt - c.x0
        }),
{
    c.lemma_x_bounds(c.sell_amount as int);
}

} // verus!
