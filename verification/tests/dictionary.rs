use std::collections::HashMap;

use narmax::candidates::build_regressors_from_lags;
use narmax::build_regressors;
use narmax::monomials::{atom, cwr, gen_candidates, labels, reg_from_mono};
use narmax::narmax_method::common::k_min_of;
use narmax::narmax_model::max_lag;
use narmax::regressor::Regressor;
use narmax::symbol::Symbol;

#[test]
fn constant_plus_two_lags_candidate_count() {
    // ny=2, nu=2, degree=2 -> 1 (constante) + 4 + 10 = 15.
    let (regs, monos) = gen_candidates(2, 2, 2);
    assert_eq!(regs.len(), 15);
    assert_eq!(monos.len(), 15);
    assert!(monos[0].is_empty(), "primeiro candidato deve ser a constante");
}

#[test]
fn gen_candidates_orders_by_degree_then_lexicographically() {
    let (regs, monos) = gen_candidates(1, 1, 2);
    let expected: Vec<Vec<usize>> = vec![vec![], vec![0], vec![1], vec![0, 0], vec![0, 1], vec![1, 1]];
    assert_eq!(monos, expected);
    let texts: Vec<String> = regs.iter().map(|r| r.to_string()).collect();
    assert_eq!(texts, vec!["", "y(k-1)", "u(k-1)", "y(k-1)^2", "u(k-1)*y(k-1)", "u(k-1)^2"]);
}

#[test]
fn cwr_appends_combinations_with_replacement() {
    let mut cur = vec![];
    let mut out = vec![vec![9]];
    cwr(3, 2, 0, &mut cur, &mut out);
    assert!(cur.is_empty());
    assert_eq!(
        out,
        vec![vec![9], vec![0, 0], vec![0, 1], vec![0, 2], vec![1, 1], vec![1, 2], vec![2, 2]]
    );
}

#[test]
fn cwr_extends_a_prefix_from_start() {
    let mut cur = vec![1];
    let mut out = vec![];
    cwr(3, 3, 1, &mut cur, &mut out);
    assert_eq!(cur, vec![1]);
    assert_eq!(out, vec![vec![1, 1, 1], vec![1, 1, 2], vec![1, 2, 2]]);
}

#[test]
fn atom_numbers_y_lags_then_u_lags() {
    assert_eq!(atom(0, 2, 2).to_string(), "y(k-1)");
    assert_eq!(atom(1, 2, 2).to_string(), "y(k-2)");
    assert_eq!(atom(2, 2, 2).to_string(), "u(k-1)");
    assert_eq!(atom(3, 2, 2).to_string(), "u(k-2)");
}

#[test]
fn reg_from_mono_multiplies_its_variables() {
    let r = reg_from_mono(&[0, 2, 0], 2, 2);
    assert_eq!(r.terms(), &[Symbol::new("u", 1, 1), Symbol::new("y", 1, 2)]);
    assert!(reg_from_mono(&[], 2, 2).terms().is_empty());
}

#[test]
fn labels_joins_regressor_texts() {
    let monos = vec![vec![], vec![0], vec![1, 1]];
    assert_eq!(labels(&monos, 1, 1), ", y(k-1), u(k-1)^2");
    assert_eq!(labels(&[], 1, 1), "");
}

#[test]
fn build_regressors_degree_zero_is_empty() {
    assert!(build_regressors(HashMap::from([("y", 2), ("u", 2)]), 0).is_empty());
}

#[test]
fn build_regressors_skips_names_with_no_lag() {
    let regs = build_regressors(HashMap::from([("y", 0), ("u", 1)]), 3);
    let texts: Vec<String> = regs.iter().map(|r| r.to_string()).collect();
    assert_eq!(texts, vec!["u(k-1)", "u(k-1)^2", "u(k-1)^3"]);
}

#[test]
fn build_regressors_from_lags_goes_by_degree() {
    let lags = vec![(String::from("y"), 1), (String::from("u"), 1)];
    let regs = build_regressors_from_lags(&lags, 2);
    let texts: Vec<String> = regs.iter().map(|r| r.to_string()).collect();
    assert_eq!(texts, vec!["y(k-1)", "u(k-1)", "y(k-1)^2", "u(k-1)*y(k-1)", "u(k-1)^2"]);
}

#[test]
fn build_regressors_from_lags_counts_a_repeated_name_once() {
    let lags = vec![(String::from("y"), 2), (String::from("y"), 1)];
    let regs = build_regressors_from_lags(&lags, 1);
    let texts: Vec<String> = regs.iter().map(|r| r.to_string()).collect();
    assert_eq!(texts, vec!["y(k-1)", "y(k-2)"]);
}

#[test]
fn build_regressors_has_no_two_equal_regressors() {
    let regs = build_regressors(HashMap::from([("y", 3), ("u", 3)]), 3);
    assert_eq!(regs.len(), 83);
    for i in 0..regs.len() {
        for j in 0..regs.len() {
            if i != j {
                assert!(regs[i] != regs[j]);
            }
        }
    }
}

#[test]
fn max_lag_is_largest_index_or_zero() {
    assert_eq!(max_lag(&[]), 0);
    let regs = vec![
        Regressor::new("y", 1),
        Regressor::from(vec![Symbol::new("u", 4, 2), Symbol::new("y", 2, 1)]),
        Regressor::from(Vec::<Symbol>::new()),
    ];
    assert_eq!(max_lag(&regs), 4);
    assert_eq!(k_min_of(&regs), 4);
    assert_eq!(k_min_of(&[Regressor::new("x", 0)]), 0);
}

#[test]
fn cwr_past_the_variables_adds_nothing() {
    let mut cur = vec![0, 1, 2];
    let mut out: Vec<Vec<usize>> = vec![vec![9]];
    cwr(2, 1, 2, &mut cur, &mut out);
    assert_eq!(cur, vec![0, 1, 2]);
    assert_eq!(out, vec![vec![9]]);
}
