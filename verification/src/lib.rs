//! Polynomial NARMAX regressors: lagged symbols, their products, and the
//! candidate dictionaries that structure-selection methods search.

mod sealed;
pub mod symbol;
pub mod order;
pub mod sorting;
pub mod terms;
pub mod regressor;
pub mod text;
pub mod layout;
pub mod dataset;
pub mod candidates;
pub mod lags;
pub mod narmax_model;
pub mod narmax_method;
pub mod monomials;
pub mod laws;

pub use regressor::build_regressors;
