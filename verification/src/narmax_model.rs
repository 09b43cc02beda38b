//! What a selected model needs from its structure without its coefficients.

use vstd::prelude::*;
use crate::regressor::Regressor;
use crate::lags::is_max_lag;
use crate::narmax_method::common::k_min_of;

verus! {

/// Max lag over a slice of regressors' symbols: the offset at which simulation and
/// prediction start.
pub fn max_lag(regs: &[Regressor]) -> (m: usize)
    ensures
        is_max_lag(regs@, m as nat),
{
    k_min_of(regs)
}

} // verus!
