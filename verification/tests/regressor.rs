use std::collections::HashMap;
use std::collections::hash_map::DefaultHasher;
use std::hash::{Hash, Hasher};

use narmax::build_regressors;
use narmax::regressor::Regressor;
use narmax::symbol::Symbol;

fn assert_same_regressor_set(left: &[Regressor], right: &[Regressor]) {
    assert_eq!(
        left.len(),
        right.len(),
        "len mismatch: {} vs {}",
        left.len(),
        right.len()
    );
    for r in left {
        assert!(right.contains(r), "missing in right: {}", r.to_string());
    }
    for r in right {
        assert!(left.contains(r), "missing in left: {}", r.to_string());
    }
}

#[test]
fn test_regressor_display() {
    let symbol = Regressor::new("x", 0);
    assert_eq!(symbol.to_string(), "x(k)");
    let symbol = Regressor::from(vec![Symbol::new("x", 0, 2), Symbol::new("y", 0, 3)]);
    assert_eq!(symbol.to_string(), "x(k)^2*y(k)^3");
}

#[test]
fn test_regressor_mul() {
    let symbol1 = Regressor::new("x", 0);
    let symbol2 = Regressor::new("x", 0);
    let result = symbol1 * symbol2;
    assert_eq!(result.to_string(), "x(k)^2");
    let symbol1 = Regressor::new("x", 0);
    let symbol2 = Regressor::new("y", 0);
    let result = symbol1 * symbol2;
    assert_eq!(result.to_string(), "x(k)*y(k)");
    let symbol1 = Regressor::from(vec![Symbol::new("x", 0, 2), Symbol::new("y", 0, 3)]);
    let symbol2 = Regressor::from(vec![Symbol::new("y", 0, 1), Symbol::new("z", 0, 4)]);
    let result = symbol1 * symbol2;
    assert_eq!(result.to_string(), "x(k)^2*y(k)^4*z(k)^4");
}

#[test]
fn test_regressor_eq() {
    let a = Regressor::new("a", 0);
    let b = Regressor::new("b", 0);

    assert_eq!(&a * &b, &b * &a);
}

#[test]
fn test_222() {
    let output = build_regressors(HashMap::from([("y", 2), ("u", 2)]), 2);
    let a = Regressor::new("y", 1);
    let b = Regressor::new("y", 2);
    let c = Regressor::new("u", 1);
    let d = Regressor::new("u", 2);

    let expected = vec![
        a.clone(),
        b.clone(),
        c.clone(),
        d.clone(),
        &a * &a,
        &a * &b,
        &a * &c,
        &a * &d,
        &b * &b,
        &b * &c,
        &b * &d,
        &c * &c,
        &c * &d,
        &d * &d,
    ];

    assert_same_regressor_set(&output, &expected);
}

#[test]
fn from_vec_symbol_preserves_terms() {
    let terms = vec![Symbol::new("x", 0, 2), Symbol::new("y", 1, 1)];
    let r = Regressor::from(terms.clone());
    assert_eq!(r.terms(), terms.as_slice());
}

#[test]
fn new_creates_single_atom_with_power_one() {
    let r = Regressor::new("y", 2);
    assert_eq!(r.terms(), &[Symbol::new("y", 2, 1)]);
}

#[test]
fn display_with_zero_index_omits_lag() {
    let r = Regressor::new("x", 0);
    assert_eq!(r.to_string(), "x(k)");
}

#[test]
fn display_with_power_one_omits_exponent() {
    let r = Regressor::new("y", 1);
    assert_eq!(r.to_string(), "y(k-1)");
}

#[test]
fn mul_is_commutative() {
    let a = Regressor::new("y", 1);
    let b = Regressor::new("u", 2);
    assert_eq!(&a * &b, &b * &a);
}

#[test]
fn mul_is_associative() {
    let a = Regressor::new("y", 1);
    let b = Regressor::new("y", 2);
    let c = Regressor::new("u", 1);
    assert_eq!(&(&a * &b) * &c, &a * &(&b * &c));
}

#[test]
fn mul_merges_repeated_atoms() {
    let a = Regressor::new("y", 1);
    let prod = &a * &a;
    assert_eq!(prod.terms(), &[Symbol::new("y", 1, 2)]);
    let cubed = &prod * &a;
    assert_eq!(cubed.terms(), &[Symbol::new("y", 1, 3)]);
}

#[test]
fn mul_owned_matches_borrowed() {
    let a = Regressor::new("y", 1);
    let b = Regressor::new("u", 2);
    assert_eq!(a.clone() * b.clone(), &a * &b);
}

#[test]
fn eq_is_symmetric() {
    let a = Regressor::new("y", 1);
    let b = Regressor::new("y", 1);
    assert_eq!(a == b, b == a);
    assert!(a == b);
}

#[test]
fn eq_is_order_insensitive() {
    let yu = Regressor::from(vec![Symbol::new("y", 1, 1), Symbol::new("u", 1, 1)]);
    let uy = Regressor::from(vec![Symbol::new("u", 1, 1), Symbol::new("y", 1, 1)]);
    assert_eq!(yu, uy);
}

#[test]
fn eq_rejects_subset_in_either_direction() {
    let small = Regressor::from(vec![Symbol::new("y", 1, 1)]);
    let big = Regressor::from(vec![Symbol::new("y", 1, 1), Symbol::new("u", 1, 1)]);
    assert_ne!(small, big);
    assert_ne!(big, small);
}

#[test]
fn eq_distinguishes_different_powers() {
    let p2 = Regressor::from(vec![Symbol::new("y", 1, 2)]);
    let p3 = Regressor::from(vec![Symbol::new("y", 1, 3)]);
    assert_ne!(p2, p3);
}

#[test]
fn build_regressors_222_has_fourteen_terms() {
    assert_eq!(
        build_regressors(HashMap::from([("y", 2), ("u", 2)]), 2).len(),
        14
    );
}

#[test]
fn build_regressors_223_has_thirtyfour_terms() {
    assert_eq!(
        build_regressors(HashMap::from([("y", 2), ("u", 2)]), 3).len(),
        34
    );
}

#[test]
fn build_regressors_each_term_has_total_power_at_most_n() {
    for r in build_regressors(HashMap::from([("y", 2), ("u", 2)]), 3) {
        let total: usize = r.terms().iter().map(|s| s.power()).sum();
        assert!(
            (1..=3).contains(&total),
            "total power {total} out of [1, 3]"
        );
    }
}

#[test]
fn test_223() {
    let output = build_regressors(HashMap::from([("y", 2), ("u", 2)]), 3);
    let a = Regressor::new("y", 1);
    let b = Regressor::new("y", 2);
    let c = Regressor::new("u", 1);
    let d = Regressor::new("u", 2);

    let expected = vec![
        a.clone(),
        b.clone(),
        c.clone(),
        d.clone(),
        &a * &a,
        &a * &b,
        &a * &c,
        &a * &d,
        &b * &b,
        &b * &c,
        &b * &d,
        &c * &c,
        &c * &d,
        &d * &d,
        &a * &a * a.clone(),
        &a * &b * a.clone(),
        &a * &c * a.clone(),
        &a * &d * a.clone(),
        &b * &b * a.clone(),
        &b * &c * a.clone(),
        &b * &d * a.clone(),
        &c * &c * a.clone(),
        &c * &d * a.clone(),
        &d * &d * a.clone(),
        &b * &b * b.clone(),
        &b * &c * b.clone(),
        &b * &d * b.clone(),
        &c * &c * b.clone(),
        &c * &d * b.clone(),
        &d * &d * b.clone(),
        &c * &c * c.clone(),
        &c * &d * c.clone(),
        &d * &d * c.clone(),
        &d * &d * d.clone(),
    ];

    assert_same_regressor_set(&output, &expected);
}

#[test]
fn eq_is_symmetric_with_repeated_terms() {
    let a = Regressor::from(vec![Symbol::new("y", 1, 1), Symbol::new("y", 1, 1), Symbol::new("u", 1, 1)]);
    let b = Regressor::from(vec![Symbol::new("y", 1, 1), Symbol::new("u", 1, 1), Symbol::new("u", 2, 1)]);
    assert!(a != b);
    assert!(b != a);
    assert!(a == a.clone());
}

#[test]
fn mul_commutes_and_associates_with_zero_powers() {
    let a = Regressor::from(vec![Symbol::new("y", 1, 0), Symbol::new("u", 2, 1)]);
    let b = Regressor::from(vec![Symbol::new("y", 1, 2), Symbol::new("u", 1, 0)]);
    let c = Regressor::from(vec![Symbol::new("u", 2, 0), Symbol::new("y", 3, 1)]);
    assert_eq!((&a * &b).terms(), (&b * &a).terms());
    assert_eq!((&(&a * &b) * &c).terms(), (&a * &(&b * &c)).terms());
}

#[test]
fn equal_regressors_hash_alike() {
    let hash = |r: &Regressor| {
        let mut h = DefaultHasher::new();
        r.hash(&mut h);
        h.finish()
    };
    let a = Regressor::from(vec![Symbol::new("u", 2, 1), Symbol::new("y", 1, 2)]);
    let b = Regressor::from(vec![Symbol::new("y", 1, 2), Symbol::new("u", 2, 1)]);
    assert!(a == b);
    assert_eq!(hash(&a), hash(&b));
    let c = &Regressor::new("y", 1) * &Regressor::new("u", 2);
    let d = &Regressor::new("u", 2) * &Regressor::new("y", 1);
    assert!(c == d);
    assert_eq!(hash(&c), hash(&d));
}
