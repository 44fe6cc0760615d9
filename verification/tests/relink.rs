use ferrotherm::graph::Graph;
use ferrotherm::relink::{field_free, gauge_distance, gauge_target, hamming, nearest, replay};

fn chain(n: usize, bias_at: Option<(usize, f64)>) -> Graph {
    let mut offset = vec![0usize];
    let mut nbr = Vec::new();
    let mut w = Vec::new();
    for i in 0..n {
        if i > 0 {
            nbr.push((i - 1) as u32);
            w.push(1.0f64.to_bits());
        }
        if i + 1 < n {
            nbr.push((i + 1) as u32);
            w.push(1.0f64.to_bits());
        }
        offset.push(nbr.len());
    }
    let mut h = vec![0.0f64.to_bits(); n];
    if let Some((i, v)) = bias_at {
        h[i] = v.to_bits();
    }
    Graph::from_csr(n, h, offset, nbr, w).unwrap()
}

#[test]
fn the_gauge_is_free_only_without_fields() {
    assert!(field_free(&chain(6, None)));
    assert!(!field_free(&chain(6, Some((2, 0.75)))));
    assert!(field_free(&chain(6, Some((2, -0.0)))), "a negative zero is still no field");
    assert!(field_free(&chain(0, None)));
}

#[test]
fn distances_count_disagreements_up_to_the_global_flip() {
    let a = [1i8, 1, -1, 1, -1, -1];
    let b = [1i8, -1, -1, -1, 1, -1];
    assert_eq!(hamming(&a, &b), 3);
    assert_eq!(hamming(&a, &a), 0);
    let neg: Vec<i8> = a.iter().map(|&s| -s).collect();
    assert_eq!(hamming(&a, &neg), 6);
    assert_eq!(gauge_distance(&a, &neg), 0, "a state and its flip are one solution");
    assert_eq!(gauge_distance(&a, &b), 3);
    let c = [1i8, -1, 1, 1, -1, -1];
    assert_eq!(gauge_distance(&a, &c), 2);
}

#[test]
fn a_path_is_its_start_plus_exactly_the_flips_taken() {
    let from = [1i8, 1, 1, 1];
    let flips = [2usize, 0, 2, 3];
    assert_eq!(replay(&from, &flips, 0), vec![1, 1, 1, 1]);
    assert_eq!(replay(&from, &flips, 1), vec![1, 1, -1, 1]);
    assert_eq!(replay(&from, &flips, 2), vec![-1, 1, -1, 1]);
    assert_eq!(replay(&from, &flips, 3), vec![-1, 1, 1, 1], "flipping twice undoes it");
    assert_eq!(replay(&from, &flips, 4), vec![-1, 1, 1, -1]);
}

#[test]
fn the_nearest_member_is_the_first_at_the_least_distance() {
    let held = vec![vec![1i8, 1, 1, 1], vec![1, 1, -1, -1], vec![-1, -1, -1, -1], vec![1, 1, 1, -1]];
    let s = [1i8, 1, 1, -1];
    assert_eq!(nearest(&held, &s, false), Some((3, 0)));
    let t = [-1i8, -1, -1, 1];
    // Plain distance: the all-down state is one flip away.
    assert_eq!(nearest(&held, &t, false), Some((2, 1)));
    // Up to a global flip, the last member IS t flipped, at distance 0.
    assert_eq!(nearest(&held, &t, true), Some((3, 0)));
    let u = [1i8, 1, -1, 1];
    // Two members are one flip away: the tie goes to the first.
    assert_eq!(nearest(&held, &u, false), Some((0, 1)));
    assert_eq!(nearest(&[], &u, false), None);
}

#[test]
fn a_gauged_walk_heads_for_the_nearer_orientation() {
    let g = chain(4, None);
    let from = [1i8, 1, 1, 1];
    // Three of four spins differ: the flipped target is one flip away.
    assert_eq!(gauge_target(&g, &from, &[-1, -1, -1, 1]), (vec![1, 1, 1, -1], true));
    // Exactly half differ: not nearer, so the target stands.
    assert_eq!(gauge_target(&g, &from, &[-1, -1, 1, 1]), (vec![-1, -1, 1, 1], false));
    // With a field, a state and its flip are different solutions.
    let biased = chain(4, Some((0, 0.5)));
    assert_eq!(gauge_target(&biased, &from, &[-1, -1, -1, 1]), (vec![-1, -1, -1, 1], false));
}
