use narmax::regressor::Regressor;
use narmax::symbol::Symbol;

#[test]
fn product_degree_is_sum_of_degrees() {
    let a = Regressor::from(vec![Symbol::new("y", 1, 2), Symbol::new("u", 2, 1)]);
    let b = Regressor::from(vec![Symbol::new("y", 1, 1), Symbol::new("u", 3, 4)]);
    let p = &a * &b;
    let degree = |r: &Regressor| r.terms().iter().map(|s| s.power()).sum::<usize>();
    assert_eq!(degree(&p), degree(&a) + degree(&b));
    assert_eq!(p.to_string(), "u(k-2)*u(k-3)^4*y(k-1)^3");
}

#[test]
fn product_powers_add_per_variable_and_lag() {
    let a = Regressor::from(vec![Symbol::new("y", 1, 2), Symbol::new("u", 2, 1)]);
    let b = Regressor::from(vec![Symbol::new("u", 2, 5)]);
    let p = &a * &b;
    assert_eq!(
        p.terms(),
        &[Symbol::new("u", 2, 6), Symbol::new("y", 1, 2)]
    );
}

#[test]
fn product_of_three_in_any_grouping_and_order() {
    let a = Regressor::new("y", 1);
    let b = Regressor::from(vec![Symbol::new("u", 1, 2)]);
    let c = Regressor::new("y", 3);
    let left = &(&a * &b) * &c;
    let right = &a * &(&b * &c);
    let reordered = &(&c * &a) * &b;
    assert_eq!(left.terms(), right.terms());
    assert_eq!(left.terms(), reordered.terms());
    assert_eq!(left.to_string(), "u(k-1)^2*y(k-1)*y(k-3)");
}

#[test]
fn product_with_no_terms_is_identity() {
    let one = Regressor::from(Vec::<Symbol>::new());
    let a = Regressor::from(vec![Symbol::new("y", 2, 3)]);
    assert_eq!((&one * &a).terms(), a.terms());
    assert_eq!((&a * &one).terms(), a.terms());
    assert_eq!(one.to_string(), "");
}

#[test]
fn product_keeps_repeated_terms_of_the_left_factor() {
    // A term list with a repeated variable-lag pair is kept as given by `from`;
    // a product adds the right factor's power to the first of them only.
    let a = Regressor::from(vec![Symbol::new("y", 1, 1), Symbol::new("y", 1, 1)]);
    let b = Regressor::new("y", 1);
    let p = &a * &b;
    assert_eq!(p.terms(), &[Symbol::new("y", 1, 1), Symbol::new("y", 1, 2)]);
}

#[test]
fn regressor_eq_on_repeated_terms_compares_both_ways() {
    let twice_y = Regressor::from(vec![Symbol::new("y", 1, 1), Symbol::new("y", 1, 1)]);
    let y_and_u = Regressor::from(vec![Symbol::new("y", 1, 1), Symbol::new("u", 1, 1)]);
    assert!(!(twice_y == y_and_u));
    assert!(!(y_and_u == twice_y));
    let y_again = Regressor::from(vec![Symbol::new("y", 1, 1), Symbol::new("y", 1, 1)]);
    assert!(twice_y == y_again);
}

#[test]
fn text_writes_multi_digit_lags_and_powers() {
    let r = Regressor::from(vec![Symbol::new("u", 12, 10), Symbol::new("e", 0, 1)]);
    assert_eq!(r.to_string(), "e(k)*u(k-12)^10");
}

#[test]
fn from_sorts_by_name_then_lag_then_power() {
    let r = Regressor::from(vec![
        Symbol::new("y", 2, 1),
        Symbol::new("y", 1, 1),
        Symbol::new("u", 5, 1),
    ]);
    assert_eq!(
        r.terms(),
        &[Symbol::new("u", 5, 1), Symbol::new("y", 1, 1), Symbol::new("y", 2, 1)]
    );
}

#[test]
fn clone_is_equal_term_by_term() {
    let r = Regressor::from(vec![Symbol::new("u", 1, 2), Symbol::new("y", 3, 1)]);
    let c = r.clone();
    assert_eq!(c.terms(), r.terms());
}

#[test]
fn regressor_eq_compares_sets_of_terms_of_one_length() {
    let a = Regressor::from(vec![Symbol::new("y", 1, 1), Symbol::new("y", 1, 1), Symbol::new("u", 1, 1)]);
    let b = Regressor::from(vec![Symbol::new("y", 1, 1), Symbol::new("u", 1, 1), Symbol::new("u", 1, 1)]);
    assert!(a == b);
    assert!(b == a);
    let shorter = Regressor::from(vec![Symbol::new("y", 1, 1), Symbol::new("u", 1, 1)]);
    assert!(a != shorter);
    assert!(shorter != a);
}
