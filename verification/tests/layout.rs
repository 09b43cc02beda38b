use narmax::layout::lagged_len;
use narmax::regressor::Regressor;
use narmax::symbol::Symbol;

#[test]
fn lagged_len_saturates_at_zero() {
    assert_eq!(lagged_len(5, 0), 5);
    assert_eq!(lagged_len(5, 2), 3);
    assert_eq!(lagged_len(5, 5), 0);
    assert_eq!(lagged_len(2, 7), 0);
    assert_eq!(lagged_len(0, 0), 0);
}

#[test]
fn layout_of_lagged_product_aligns_the_ends() {
    // y(k-1) * y(k-2) on four samples: windows of 3 and 2, the first shortened by one.
    let r = Regressor::from(vec![Symbol::new("y", 1, 1), Symbol::new("y", 2, 1)]);
    assert_eq!(r.eval_layout(&[4, 4]), Some((2, vec![1, 0])));
}

#[test]
fn layout_of_three_terms_follows_the_largest_lag() {
    let r = Regressor::from(vec![
        Symbol::new("y", 0, 1),
        Symbol::new("y", 1, 1),
        Symbol::new("y", 2, 1),
    ]);
    assert_eq!(r.eval_layout(&[5, 5, 5]), Some((3, vec![2, 1, 0])));
}

#[test]
fn layout_is_empty_when_a_lag_exceeds_the_samples() {
    let r = Regressor::from(vec![Symbol::new("y", 0, 1), Symbol::new("y", 5, 1)]);
    assert_eq!(r.eval_layout(&[2, 2]), Some((0, vec![2, 0])));
    let single = Regressor::new("y", 0);
    assert_eq!(single.eval_layout(&[0]), Some((0, vec![0])));
}

#[test]
fn layout_of_regressor_without_terms_is_none() {
    let r = Regressor::from(Vec::<Symbol>::new());
    assert_eq!(r.eval_layout(&[]), None);
    assert_eq!(r.sample_positions(3, &[]), Some(vec![]));
}

#[test]
fn layout_with_buffers_of_different_lengths() {
    // y(k-1) on 6 samples and u(k-3) on 4: windows of 5 and 1.
    let r = Regressor::from(vec![Symbol::new("y", 1, 1), Symbol::new("u", 3, 1)]);
    // Sorted terms: u(k-3) first, then y(k-1).
    assert_eq!(r.terms()[0].name(), "u");
    assert_eq!(r.eval_layout(&[4, 6]), Some((1, vec![0, 4])));
}

#[test]
fn sample_positions_read_k_minus_lag() {
    let r = Regressor::from(vec![Symbol::new("y", 1, 1), Symbol::new("y", 2, 1)]);
    assert_eq!(r.sample_positions(3, &[4, 4]), Some(vec![2, 1]));
    assert_eq!(r.sample_positions(2, &[4, 4]), Some(vec![1, 0]));
    // Before the start of the buffer.
    assert_eq!(r.sample_positions(1, &[4, 4]), None);
    // Past its end.
    assert_eq!(r.sample_positions(5, &[4, 4]), None);
    assert_eq!(r.sample_positions(5, &[4, 5]), None);
    assert_eq!(r.sample_positions(5, &[5, 5]), Some(vec![4, 3]));
}

#[test]
fn whole_buffer_value_i_reads_the_samples_of_instant_max_lag_plus_i() {
    let r = Regressor::from(vec![
        Symbol::new("y", 0, 1),
        Symbol::new("y", 1, 2),
        Symbol::new("y", 3, 1),
    ]);
    let lens = [7, 7, 7];
    let (least, starts) = r.eval_layout(&lens).unwrap();
    assert_eq!(least, 7 - 3);
    for i in 0..least {
        let shifted: Vec<usize> = starts.iter().map(|s| s + i).collect();
        assert_eq!(r.sample_positions(3 + i, &lens), Some(shifted));
    }
}
