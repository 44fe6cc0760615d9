use ferrotherm::graph::{finite, Graph};

#[test]
fn a_well_formed_model_is_accepted_and_a_lopsided_one_refused() {
    let one = 1.0f64.to_bits();
    let g = Graph::from_csr(3, vec![0; 3], vec![0, 1, 3, 4], vec![1, 0, 2, 1], vec![one; 4]).unwrap();
    assert_eq!(g.n_edges, 2);
    // A coupling listed in one row only.
    assert!(Graph::from_csr(3, vec![0; 3], vec![0, 1, 2, 2], vec![1, 2], vec![one; 2]).is_none());
    // The same coupling with two different weights.
    assert!(Graph::from_csr(2, vec![0; 2], vec![0, 1, 2], vec![1, 0], vec![one, 2.0f64.to_bits()]).is_none());
    // A self-coupling.
    assert!(Graph::from_csr(1, vec![0], vec![0, 2], vec![0, 0], vec![one; 2]).is_none());
    // A neighbour past the end.
    assert!(Graph::from_csr(2, vec![0; 2], vec![0, 1, 2], vec![5, 0], vec![one; 2]).is_none());
    // Rows out of order.
    assert!(Graph::from_csr(3, vec![0; 3], vec![0, 2, 3, 4], vec![2, 1, 0, 0], vec![one; 4]).is_none());
}

#[test]
fn non_finite_weights_are_seen() {
    let one = 1.0f64.to_bits();
    let g = Graph::from_csr(2, vec![0, 0.5f64.to_bits()], vec![0, 1, 2], vec![1, 0], vec![one; 2]).unwrap();
    assert!(finite(&g));
    let nan = Graph::from_csr(2, vec![0, f64::NAN.to_bits()], vec![0, 1, 2], vec![1, 0], vec![one; 2]).unwrap();
    assert!(!finite(&nan));
    let inf = f64::NEG_INFINITY.to_bits();
    let g = Graph::from_csr(2, vec![0, 0], vec![0, 1, 2], vec![1, 0], vec![inf; 2]).unwrap();
    assert!(!finite(&g));
    let big = f64::MAX.to_bits();
    let g = Graph::from_csr(2, vec![0, 0], vec![0, 1, 2], vec![1, 0], vec![big; 2]).unwrap();
    assert!(finite(&g));
}

#[test]
fn the_degree_is_the_longest_row() {
    let one = 1.0f64.to_bits();
    let g = Graph::from_csr(3, vec![0; 3], vec![0, 1, 3, 4], vec![1, 0, 2, 1], vec![one; 4]).unwrap();
    assert_eq!(g.max_degree(), 2);
    let empty = Graph::from_csr(0, vec![], vec![0], vec![], vec![]).unwrap();
    assert_eq!(empty.max_degree(), 0);
    let lonely = Graph::from_csr(2, vec![0; 2], vec![0, 0, 0], vec![], vec![]).unwrap();
    assert_eq!(lonely.max_degree(), 0);
}
