use narmax::order::{name_less, symbol_less_or_equal};
use narmax::symbol::Symbol;

#[test]
fn name_less_is_lexicographic() {
    assert!(name_less("u", "y"));
    assert!(!name_less("y", "u"));
    assert!(name_less("x", "xy"));
    assert!(!name_less("xy", "x"));
    assert!(!name_less("y", "y"));
    assert!(name_less("", "a"));
}

#[test]
fn symbol_order_is_name_then_lag_then_power() {
    let y1 = Symbol::new("y", 1, 5);
    let y2 = Symbol::new("y", 2, 1);
    let u9 = Symbol::new("u", 9, 9);
    assert!(symbol_less_or_equal(&u9, &y1));
    assert!(symbol_less_or_equal(&y1, &y2));
    assert!(!symbol_less_or_equal(&y2, &y1));
    assert!(symbol_less_or_equal(&Symbol::new("y", 1, 2), &Symbol::new("y", 1, 3)));
    assert!(!symbol_less_or_equal(&Symbol::new("y", 1, 3), &Symbol::new("y", 1, 2)));
    assert!(symbol_less_or_equal(&y1, &y1));
}

#[test]
fn sort_symbols_orders_by_name_lag_power() {
    let v = vec![
        Symbol::new("y", 2, 1),
        Symbol::new("u", 1, 3),
        Symbol::new("y", 1, 2),
        Symbol::new("u", 1, 1),
    ];
    let sorted = narmax::sorting::sort_symbols(v);
    let expected = vec![
        Symbol::new("u", 1, 1),
        Symbol::new("u", 1, 3),
        Symbol::new("y", 1, 2),
        Symbol::new("y", 2, 1),
    ];
    assert_eq!(sorted, expected);
}
