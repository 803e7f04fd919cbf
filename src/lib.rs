//! A constant-product bonding curve with virtual token reserves, in exact
//! integer arithmetic.
mod curve;
mod laws;

pub use crate::curve::{product_of, sum_of, prepend_ok, Curve, CurveConfig, CurveError, CurveSnapshot};
pub use crate::laws::{
    lemma_reserves_at_step, lemma_tokens_out_monotone, lemma_total_raise_is_full_range,
};

