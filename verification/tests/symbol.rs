use narmax::symbol::Symbol;

#[test]
fn new_accepts_str_and_string() {
    let from_str = Symbol::new("y", 1, 1);
    let from_string = Symbol::new(String::from("y"), 1, 1);
    let from_ref_string = Symbol::new(&String::from("y"), 1, 1);
    assert_eq!(from_str, from_string);
    assert_eq!(from_str, from_ref_string);
}

#[test]
fn getters_return_stored_values() {
    let s = Symbol::new("u", 3, 2);
    assert_eq!(s.name(), "u");
    assert_eq!(s.index(), 3);
    assert_eq!(s.power(), 2);
}

#[test]
fn set_power_mutates_only_power() {
    let mut s = Symbol::new("y", 1, 1);
    s.set_power(5);
    assert_eq!(s.power(), 5);
    assert_eq!(s.name(), "y");
    assert_eq!(s.index(), 1);
}

#[test]
fn eq_compares_all_three_fields() {
    let base = Symbol::new("y", 1, 2);
    assert_eq!(base, Symbol::new("y", 1, 2));
    assert_ne!(base, Symbol::new("u", 1, 2));
    assert_ne!(base, Symbol::new("y", 2, 2));
    assert_ne!(base, Symbol::new("y", 1, 3));
}

#[test]
fn clone_keeps_all_fields() {
    let s = Symbol::new("u", 4, 3);
    let c = s.clone();
    assert_eq!(c, s);
    assert_eq!(c.name(), "u");
    assert_eq!(c.index(), 4);
    assert_eq!(c.power(), 3);
}

#[test]
fn name_equals_ignores_lag_and_power() {
    let a = Symbol::new("y", 1, 2);
    assert!(a.name_equals(&Symbol::new("y", 7, 1)));
    assert!(!a.name_equals(&Symbol::new("u", 1, 2)));
}
