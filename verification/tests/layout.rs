use ferrotherm::graph::Graph;
use ferrotherm::layout::{CopyLayout, Link};
use ferrotherm::sparsify::{copies_for, Refused};

/// A model from its couplings, listed once each.
fn model(n: usize, edges: &[(usize, usize)]) -> Graph {
    let mut rows: Vec<Vec<u32>> = vec![Vec::new(); n];
    for &(a, b) in edges {
        rows[a].push(b as u32);
        rows[b].push(a as u32);
    }
    let mut offset = vec![0usize];
    let mut nbr = Vec::new();
    for r in &mut rows {
        r.sort_unstable();
        nbr.extend_from_slice(r);
        offset.push(nbr.len());
    }
    let w = vec![1.0f64.to_bits(); nbr.len()];
    Graph::from_csr(n, vec![0; n], offset, nbr, w).expect("a well-formed model")
}

fn clique(n: usize) -> Graph {
    let mut e = Vec::new();
    for i in 0..n {
        for j in (i + 1)..n {
            e.push((i, j));
        }
    }
    model(n, &e)
}

fn lattice2d(l: usize) -> Graph {
    let mut e = Vec::new();
    for r in 0..l {
        for c in 0..l {
            let i = r * l + c;
            e.push((i, r * l + (c + 1) % l));
            e.push((i, ((r + 1) % l) * l + c));
        }
    }
    model(l * l, &e)
}

/// Couplings each node carries: its path couplings and the model couplings it took.
fn node_degrees(l: &CopyLayout) -> Vec<usize> {
    let mut deg = vec![0usize; l.nodes as usize];
    for c in &l.copies {
        for w in c.windows(2) {
            deg[w[0] as usize] += 1;
            deg[w[1] as usize] += 1;
        }
    }
    for k in &l.links {
        deg[k.a as usize] += 1;
        deg[k.b as usize] += 1;
    }
    deg
}

#[test]
fn a_budget_below_three_is_refused_and_three_is_enough() {
    for budget in [0usize, 1, 2] {
        assert_eq!(CopyLayout::new(&clique(5), budget).err(), Some(Refused::BudgetTooSmall { budget }));
    }
    assert!(CopyLayout::new(&clique(5), 3).is_ok());
}

#[test]
fn a_model_that_already_fits_is_not_split() {
    let g = lattice2d(6);
    let l = CopyLayout::new(&g, 4).unwrap();
    assert_eq!(l.nodes as usize, g.n, "no copies added");
    assert!(l.copies.iter().enumerate().all(|(v, c)| c == &vec![v as u32]));
    assert_eq!(l.links.len(), g.n_edges);
    assert!(l.links.iter().all(|k| k.a < k.b));
}

#[test]
fn first_fit_fills_each_copy_in_path_order() {
    let l = CopyLayout::new(&clique(5), 3).unwrap();
    assert_eq!(l.copies, vec![vec![0, 1], vec![2, 3], vec![4, 5], vec![6, 7], vec![8, 9]]);
    assert_eq!(l.nodes, 10);
    let want = [
        (0, 0, 2),
        (1, 0, 4),
        (2, 1, 6),
        (3, 1, 8),
        (5, 2, 4),
        (6, 3, 6),
        (7, 3, 8),
        (10, 5, 7),
        (11, 5, 9),
        (15, 7, 9),
    ];
    let got: Vec<(usize, u32, u32)> = l.links.iter().map(|k| (k.entry, k.a, k.b)).collect();
    assert_eq!(got, want.to_vec());
    assert_eq!(node_degrees(&l), vec![3; 10]);
}

#[test]
fn every_copy_stays_within_the_budget() {
    for n in 2..12usize {
        for d in 3..8usize {
            let g = clique(n);
            let l = CopyLayout::new(&g, d).unwrap();
            assert!(node_degrees(&l).iter().all(|&x| x <= d), "K_{n} onto budget {d}");
            assert_eq!(l.links.len(), g.n_edges, "every coupling handed out once");
            let total: usize = (0..n).map(|_| copies_for(n - 1, d)).sum();
            assert_eq!(l.nodes as usize, total);
            for k in &l.links {
                let u = (0..n).find(|&u| g.offset[u] <= k.entry && k.entry < g.offset[u + 1]).unwrap();
                let v = g.nbr[k.entry] as usize;
                assert!(u < v);
                assert!(l.copies[u].contains(&k.a) && l.copies[v].contains(&k.b));
            }
        }
    }
}

#[test]
fn an_uncoupled_variable_keeps_one_copy() {
    let g = model(4, &[(0, 1)]);
    let l = CopyLayout::new(&g, 3).unwrap();
    assert_eq!(l.copies, vec![vec![0], vec![1], vec![2], vec![3]]);
    assert_eq!(l.links, vec![Link { entry: 0, a: 0, b: 1 }]);
}

#[test]
fn a_sparse_state_reads_back_by_majority_and_names_what_broke() {
    let copies = vec![vec![0u32, 1, 2], vec![3, 4], vec![5], vec![6, 7]];
    let state = [1i8, 1, 1, -1, 1, -1, -1, -1];
    let (s, broken) = ferrotherm::layout::project(&copies, &state);
    assert_eq!(s, vec![1, 1, -1, -1], "a tie goes to +1");
    assert_eq!(broken, vec![1]);
    let state = [1i8, -1, -1, 1, 1, 1, 1, -1];
    let (s, broken) = ferrotherm::layout::project(&copies, &state);
    assert_eq!(s, vec![-1, 1, 1, 1]);
    assert_eq!(broken, vec![0, 3]);
}
