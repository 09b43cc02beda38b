use narmax::narmax_method::selection::{ForwardSelection, Pruning, drop_value, pick_regressors, unselected};
use narmax::regressor::Regressor;

#[test]
fn unselected_lists_open_columns_in_order() {
    assert_eq!(unselected(5, &[]), vec![0, 1, 2, 3, 4]);
    assert_eq!(unselected(5, &[3, 0]), vec![1, 2, 4]);
    assert_eq!(unselected(3, &[0, 1, 2]), Vec::<usize>::new());
    assert_eq!(unselected(0, &[1]), Vec::<usize>::new());
    // Indices past the candidate set do not matter.
    assert_eq!(unselected(3, &[7, 1]), vec![0, 2]);
}

#[test]
fn drop_value_removes_every_occurrence() {
    let mut v = vec![4, 1, 4, 2, 4];
    drop_value(&mut v, 4);
    assert_eq!(v, vec![1, 2]);

    let mut w = vec![0, 1, 2];
    drop_value(&mut w, 9);
    assert_eq!(w, vec![0, 1, 2]);
}

#[test]
fn pick_regressors_follows_the_index_order() {
    let regs = vec![
        Regressor::new("y", 1),
        Regressor::new("y", 2),
        Regressor::new("u", 1),
    ];
    let picked = pick_regressors(&regs, &[2, 0, 2]);
    assert_eq!(picked.len(), 3);
    assert!(picked[0] == Regressor::new("u", 1));
    assert!(picked[1] == Regressor::new("y", 1));
    assert!(picked[2] == Regressor::new("u", 1));
    assert!(pick_regressors(&regs, &[]).is_empty());
}

#[test]
fn pruning_tries_each_term_and_repeats_after_a_removal() {
    let mut p = Pruning::new(vec![5, 6, 7]);
    // First pass: drop the term at position 0 (5) is rejected.
    assert_eq!(p.next_trial(), Some(vec![6, 7]));
    p.record(false);
    // Position 1 (6): accepted, so 6 leaves and position 1 now holds 7.
    assert_eq!(p.next_trial(), Some(vec![5, 7]));
    p.record(true);
    assert_eq!(p.selected(), &[5, 7]);
    assert_eq!(p.next_trial(), Some(vec![5]));
    p.record(false);
    // The pass removed something, so a new pass starts from the first term.
    assert_eq!(p.next_trial(), Some(vec![7]));
    p.record(false);
    assert_eq!(p.next_trial(), Some(vec![5]));
    p.record(false);
    // A whole pass without removals ends the pruning.
    assert_eq!(p.next_trial(), None);
    assert_eq!(p.into_selected(), vec![5, 7]);
}

#[test]
fn pruning_keeps_one_term() {
    let mut p = Pruning::new(vec![3, 4]);
    assert_eq!(p.next_trial(), Some(vec![4]));
    p.record(true);
    // One term left: nothing more is tried, even though a removal was made.
    assert_eq!(p.next_trial(), None);
    assert_eq!(p.into_selected(), vec![4]);

    let mut single = Pruning::new(vec![9]);
    assert_eq!(single.next_trial(), None);
    single.record(true);
    assert_eq!(single.into_selected(), vec![9]);

    let mut empty = Pruning::new(Vec::new());
    assert_eq!(empty.next_trial(), None);
}

#[test]
fn open_columns_kept_by_removal_match_those_computed_afresh() {
    let mut open = unselected(6, &[1, 3]);
    drop_value(&mut open, 4);
    assert_eq!(open, unselected(6, &[1, 3, 4]));
    assert_eq!(open, vec![0, 2, 5]);
}

#[test]
fn forward_selection_chooses_open_columns_up_to_the_limit() {
    let mut f = ForwardSelection::new(4, 2);
    assert_eq!(f.open(), &[0, 1, 2, 3]);
    assert!(f.can_continue());
    assert!(f.choose_column(2));
    assert_eq!(f.open(), &[0, 1, 3]);
    // A column already chosen, or past the candidates, is refused.
    assert!(!f.choose_column(2));
    assert!(!f.choose_column(7));
    assert!(f.choose_column(0));
    assert_eq!(f.chosen(), &[2, 0]);
    // The limit is reached.
    assert!(!f.can_continue());
    assert!(!f.choose_column(1));
    assert_eq!(f.into_chosen(), vec![2, 0]);
}

#[test]
fn forward_selection_limit_is_capped_by_the_columns() {
    let mut f = ForwardSelection::new(2, 10);
    assert!(f.choose_column(1));
    assert!(f.choose_column(0));
    assert!(f.open().is_empty());
    assert!(!f.can_continue());
    let empty = ForwardSelection::new(0, 3);
    assert!(!empty.can_continue());
}
