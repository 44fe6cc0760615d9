use ferrotherm::residual::{pinned, Residual};

fn chain() -> Residual {
    // 0 -> 1 -> 2 and 3 -> 2
    let mut r = Residual::new(4);
    r.add_arc(0, 1);
    r.add_arc(1, 2);
    r.add_arc(3, 2);
    r
}

#[test]
fn arcs_come_in_pairs() {
    let r = chain();
    assert_eq!(r.to, vec![1, 0, 2, 1, 2, 3]);
    assert_eq!(r.open, vec![true, false, true, false, true, false]);
    assert_eq!(r.adj[0], vec![0]);
    assert_eq!(r.adj[1], vec![1, 2]);
    assert_eq!(r.adj[2], vec![3, 5]);
    assert_eq!(r.adj[3], vec![4]);
}

#[test]
fn forward_reach_follows_open_arcs() {
    let r = chain();
    assert_eq!(r.reach_forward(0), vec![true, true, true, false]);
    assert_eq!(r.reach_forward(2), vec![false, false, true, false]);
    assert_eq!(r.reach_forward(3), vec![false, false, true, true]);
}

#[test]
fn backward_reach_finds_what_reaches_the_target() {
    let r = chain();
    assert_eq!(r.reach_backward(2), vec![true, true, true, true]);
    assert_eq!(r.reach_backward(1), vec![true, true, false, false]);
    assert_eq!(r.reach_backward(3), vec![false, false, false, true]);
}

#[test]
fn a_closed_arc_is_not_followed() {
    let mut r = chain();
    r.open[2] = false; // 1 -> 2 saturated
    r.open[3] = true; // 2 -> 1 has residual capacity
    assert_eq!(r.reach_forward(0), vec![true, true, false, false]);
    assert_eq!(r.reach_forward(3), vec![false, true, true, true]);
    assert_eq!(r.reach_backward(1), vec![true, true, true, true]);
}

#[test]
fn close_over_adds_the_closure_outside_the_set() {
    let r = chain();
    let mut inside = vec![false, false, false, false];
    assert!(r.close_over(&mut inside, 1, &[]));
    assert_eq!(inside, vec![false, true, true, false]);
    // Already inside: nothing changes.
    assert!(r.close_over(&mut inside, 2, &[0]));
    assert_eq!(inside, vec![false, true, true, false]);
    // 0 reaches only 1 and 2 beyond itself, which are inside already.
    assert!(r.close_over(&mut inside, 0, &[1, 2]));
    assert_eq!(inside, vec![true, true, true, false]);
}

#[test]
fn close_over_refuses_a_forbidden_node_and_adds_nothing() {
    let r = chain();
    let mut inside = vec![false, false, false, false];
    assert!(!r.close_over(&mut inside, 0, &[2]));
    assert_eq!(inside, vec![false, false, false, false]);
    // The start itself may be listed: only what it reaches counts.
    assert!(r.close_over(&mut inside, 3, &[3]));
    assert_eq!(inside, vec![false, false, true, true]);
}

#[test]
fn pinned_reads_both_reachability_sets() {
    // two spins: up nodes 0, 1; down nodes 2, 3
    let from_src = [false, true, true, false, true, false];
    let to_snk = [true, false, false, true, false, true];
    assert_eq!(pinned(&from_src, &to_snk, 2), vec![Some(1), Some(-1)]);
    let nowhere = [false; 6];
    assert_eq!(pinned(&nowhere, &to_snk, 2), vec![None, None]);
}

/// One spin: up node 0, down node 1, source 2, sink 3.
fn one_spin() -> Residual {
    Residual::new(4)
}

#[test]
fn a_field_pins_its_spin() {
    let mut r = one_spin();
    r.add_arc(2, 1); // source -> down
    r.add_arc(0, 3); // up -> sink
    let (fixed, labels) = r.persistency(1);
    assert_eq!(fixed, vec![Some(1)]);
    assert_eq!(labels, vec![Some(1)]);
}

#[test]
fn a_saturated_field_pins_the_other_way() {
    let mut r = one_spin();
    r.add_arc(2, 0); // source -> up
    r.add_arc(1, 3); // down -> sink
    let (fixed, labels) = r.persistency(1);
    assert_eq!(fixed, vec![Some(-1)]);
    assert_eq!(labels, vec![Some(-1)]);
}

#[test]
fn a_free_spin_is_not_pinned_but_is_labelled() {
    let r = one_spin();
    let (fixed, labels) = r.persistency(1);
    assert_eq!(fixed, vec![None]);
    // The walk pulls the down node in: spin up.
    assert_eq!(labels, vec![Some(1)]);
}

#[test]
fn the_walk_falls_back_to_the_up_node() {
    let mut r = one_spin();
    r.add_arc(1, 0); // down -> up: pulling the down node in drags the up node along
    let (fixed, labels) = r.persistency(1);
    assert_eq!(fixed, vec![None]);
    assert_eq!(labels, vec![Some(-1)]);
}

#[test]
fn the_walk_labels_nothing_when_both_nodes_drag_each_other() {
    let mut r = one_spin();
    r.add_arc(1, 0);
    r.add_arc(0, 1);
    let (fixed, labels) = r.persistency(1);
    assert_eq!(fixed, vec![None]);
    assert_eq!(labels, vec![None]);
}

#[test]
fn the_walk_never_pulls_in_the_sink() {
    let mut r = one_spin();
    r.add_arc(1, 3); // down -> sink
    r.add_arc(0, 3); // up -> sink
    let labels = r.walk_to_a_consistent_cut(&[false, false, true, false], 1, 3);
    assert_eq!(labels, vec![None]);
}

#[test]
fn an_empty_model_has_nothing_to_pin() {
    let r = Residual::new(2);
    let (fixed, labels) = r.persistency(0);
    assert!(fixed.is_empty());
    assert!(labels.is_empty());
}

#[test]
fn a_looser_saturation_test_only_unpins() {
    let mut tight = one_spin();
    tight.add_arc(2, 1); // source -> down
    tight.add_arc(0, 3); // up -> sink
    let mut loose = tight.clone();
    loose.open[0] = false; // the source arc counted as saturated
    let (tight_fixed, _) = tight.persistency(1);
    let (loose_fixed, loose_labels) = loose.persistency(1);
    assert_eq!(tight_fixed, vec![Some(1)]);
    assert_eq!(loose_fixed, vec![None]);
    assert_eq!(loose_labels, vec![Some(1)]);
}
