use ferrotherm::labelling::{assigned, complete_state, free_spins, lift};

#[test]
fn assigned_counts_the_labelled_spins() {
    assert_eq!(assigned(&[]), 0);
    assert_eq!(assigned(&[Some(1), None, Some(-1), None]), 2);
    assert_eq!(assigned(&[None, None]), 0);
}

#[test]
fn a_complete_labelling_names_a_state() {
    assert_eq!(complete_state(&[Some(1), Some(-1), Some(1)]), Some(vec![1, -1, 1]));
    assert_eq!(complete_state(&[Some(1), None]), None);
    assert_eq!(complete_state(&[]), Some(Vec::new()));
}

#[test]
fn the_free_spins_are_the_unlabelled_ones_in_order() {
    assert_eq!(free_spins(&[Some(1), None, Some(-1), None, None]), vec![1, 3, 4]);
    assert_eq!(free_spins(&[Some(1)]), Vec::<usize>::new());
}

#[test]
fn lifting_puts_the_free_spins_back() {
    let pinned = [Some(1), None, Some(-1), None];
    let free = free_spins(&pinned);
    assert_eq!(lift(&pinned, &free, &[-1, 1]), vec![1, -1, -1, 1]);
}

#[test]
fn the_last_slot_wins_and_an_unnamed_free_spin_is_zero() {
    let pinned = [None, None, Some(-1)];
    assert_eq!(lift(&pinned, &[0, 0], &[1, -1]), vec![-1, 0, -1]);
}
