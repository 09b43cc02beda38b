//! The largest lag over a set of regressors: the number of leading samples that
//! have no full history.

use vstd::prelude::*;
use crate::regressor::Regressor;

verus! {

/// `m` bounds every lag of every term of `rs`.
pub open spec fn bounds_lags(rs: Seq<Regressor>, m: nat) -> bool {
    forall|r: int, i: int| 0 <= r < rs.len() && 0 <= i < rs[r]@.len() ==> #[trigger] rs[r]@[i].1 <= m
}

/// Some term of `rs` has lag `m`.
pub open spec fn attains_lag(rs: Seq<Regressor>, m: nat) -> bool {
    exists|r: int, i: int| 0 <= r < rs.len() && 0 <= i < rs[r]@.len() && #[trigger] rs[r]@[i].1 == m
}

/// The largest lag of any term of `rs`, or zero when there is none.
pub open spec fn is_max_lag(rs: Seq<Regressor>, m: nat) -> bool {
    bounds_lags(rs, m) && (m == 0 || attains_lag(rs, m))
}

} // verus!
