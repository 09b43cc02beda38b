//! What structure-selection methods share apart from the arithmetic: the row offset
//! of the regression matrix.

use vstd::prelude::*;
use crate::regressor::Regressor;
use crate::lags::{attains_lag, is_max_lag};
use crate::sorting::views;

verus! {

/// Max lag over all candidate regressors' symbols: the first sample of the output
/// that every candidate can be evaluated at, and so the first row of the regression
/// matrix.
pub fn k_min_of(regressors: &[Regressor]) -> (k: usize)
    ensures
        is_max_lag(regressors@, k as nat),
{
    let mut m: usize = 0;
    let mut r: usize = 0;
    while r < regressors.len()
        invariant
            r <= regressors@.len(),
            forall|a: int, i: int|
                0 <= a < r && 0 <= i < regressors@[a]@.len() ==> #[trigger] regressors@[a]@[i].1 <= m,
            m == 0 || attains_lag(regressors@, m as nat),
        decreases regressors.len() - r,
    {
        let terms = regressors[r].terms();
        let mut i: usize = 0;
        while i < terms.len()
            invariant
                r < regressors@.len(),
                i <= terms@.len(),
                views(terms@) == regressors@[r as int]@,
                forall|a: int, j: int|
                    0 <= a < r && 0 <= j < regressors@[a]@.len() ==> #[trigger] regressors@[a]@[j].1 <= m,
                forall|j: int| 0 <= j < i ==> #[trigger] regressors@[r as int]@[j].1 <= m,
                m == 0 || attains_lag(regressors@, m as nat),
            decreases terms.len() - i,
        {
            assert(regressors@[r as int]@[i as int] == terms@[i as int]@);
            if terms[i].index() > m {
                m = terms[i].index();
                assert(regressors@[r as int]@[i as int].1 == m);
            }
            i = i + 1;
        }
        r = r + 1;
    }
    m
}


} // verus!
