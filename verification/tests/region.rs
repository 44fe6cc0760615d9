use ferrotherm::graph::Graph;
use ferrotherm::region::{grid_plaquettes, positions, project, RegionError, RegionGraph, MAX_REGION};
use ferrotherm::rng::Pcg;

/// A model from its couplings and biases, laid out in sorted compressed rows.
fn build(n: usize, couplings: &[(usize, usize, f64)], bias: &[(usize, f64)]) -> Graph {
    let mut rows: Vec<Vec<(u32, u64)>> = vec![Vec::new(); n];
    for &(a, b, w) in couplings {
        rows[a].push((b as u32, w.to_bits()));
        rows[b].push((a as u32, w.to_bits()));
    }
    let mut h = vec![0.0f64.to_bits(); n];
    for &(i, v) in bias {
        h[i] = v.to_bits();
    }
    let mut offset = vec![0usize];
    let mut nbr = Vec::new();
    let mut w = Vec::new();
    for row in &mut rows {
        row.sort();
        for &(j, bits) in row.iter() {
            nbr.push(j);
            w.push(bits);
        }
        offset.push(nbr.len());
    }
    Graph::from_csr(n, h, offset, nbr, w).expect("a well-formed model")
}

fn unit_f64(r: &mut Pcg) -> f64 {
    r.unit53() as f64 / (1u64 << 53) as f64
}

fn random_tree(n: usize, seed: u64) -> Graph {
    let mut rng = Pcg::new(seed, 0);
    let mut couplings = Vec::new();
    for i in 1..n {
        let parent = ((unit_f64(&mut rng) * i as f64) as usize).min(i - 1);
        couplings.push((parent, i, 2.0 * unit_f64(&mut rng) - 1.0));
    }
    let bias: Vec<(usize, f64)> = (0..n).map(|i| (i, unit_f64(&mut rng) - 0.5)).collect();
    build(n, &couplings, &bias)
}

/// An `l` by `l` lattice with periodic boundaries.
fn lattice2d(l: usize, j: f64) -> Graph {
    let mut c = Vec::new();
    for y in 0..l {
        for x in 0..l {
            let i = y * l + x;
            c.push((i, y * l + (x + 1) % l, j));
            c.push((i, ((y + 1) % l) * l + x, j));
        }
    }
    build(l * l, &c, &[])
}

/// An open `w` by `h` grid, indexed `y * w + x`.
fn grid2d(w: usize, h: usize, j: f64) -> Graph {
    let mut c = Vec::new();
    for y in 0..h {
        for x in 0..w {
            let i = y * w + x;
            if x + 1 < w {
                c.push((i, i + 1, j));
            }
            if y + 1 < h {
                c.push((i, i + w, j));
            }
        }
    }
    build(w * h, &c, &[])
}

fn ring(n: usize, j: f64, h: f64) -> Graph {
    let c: Vec<(usize, usize, f64)> = (0..n).map(|i| (i, (i + 1) % n, j)).collect();
    let b: Vec<(usize, f64)> = (0..n).map(|i| (i, h)).collect();
    build(n, &c, &b)
}

fn contains(big: &[usize], small: &[usize]) -> bool {
    small.iter().all(|x| big.contains(x))
}

#[test]
fn counting_numbers_count_every_variable_and_coupling_exactly_once() {
    let cases: [(&str, Graph, Vec<Vec<usize>>); 5] = [
        ("bethe tree", random_tree(14, 5), Vec::new()),
        ("bethe 4x4 torus", lattice2d(4, 1.0), Vec::new()),
        ("bethe ring", ring(9, 1.0, 0.3), Vec::new()),
        ("plaquettes 4x4", grid2d(4, 4, 1.0), grid_plaquettes(4, 4)),
        ("plaquettes 3x5", grid2d(3, 5, 1.0), grid_plaquettes(3, 5)),
    ];
    for (name, g, outer) in cases {
        let rg = if outer.is_empty() {
            RegionGraph::bethe(&g)
        } else {
            RegionGraph::new(g.n, &outer).unwrap()
        };
        for v in 0..g.n {
            assert_eq!(rg.variable_counting(v), 1, "{name}: variable {v}");
        }
        for i in 0..g.n {
            for e in g.offset[i]..g.offset[i + 1] {
                let j = g.nbr[e] as usize;
                if j > i {
                    assert_eq!(rg.pair_counting(i, j), 1, "{name}: coupling ({i},{j})");
                }
            }
        }
        assert!(rg.counts_each_variable_once(), "{name}");
        assert!(rg.counts_each_coupling_once(&g), "{name}");
        for r in 0..rg.len() {
            let want = 1 - rg.ancestors[r].iter().map(|&a| rg.counting[a]).sum::<i64>();
            assert_eq!(rg.counting[r], want, "{name}: region {r}");
        }
        for &(p, c) in &rg.edges {
            assert!(contains(&rg.regions[p], &rg.regions[c]));
            assert!(rg.regions[p].len() > rg.regions[c].len());
            assert!(
                !rg.regions.iter().any(|m| {
                    m.len() > rg.regions[c].len()
                        && m.len() < rg.regions[p].len()
                        && contains(&rg.regions[p], m)
                        && contains(m, &rg.regions[c])
                }),
                "{name}: ({p},{c}) is not a cover"
            );
        }
    }
}

#[test]
fn the_square_lattice_region_graph_is_the_published_one() {
    let rg = RegionGraph::new(9, &grid_plaquettes(3, 3)).unwrap();
    let faces: Vec<&Vec<usize>> = rg.regions.iter().filter(|r| r.len() == 4).collect();
    assert_eq!(faces.len(), 4);
    assert_eq!(
        rg.regions.iter().filter(|r| r.len() == 2).count(),
        4,
        "each neighbouring pair of faces shares a bond"
    );
    assert_eq!(rg.regions.iter().filter(|r| r.len() == 1).collect::<Vec<_>>(), vec![&vec![4]]);
    for (r, c) in rg.regions.iter().zip(&rg.counting) {
        let want = match r.len() {
            4 | 1 => 1,
            _ => -1,
        };
        assert_eq!(*c, want, "region {r:?}");
    }
    assert_eq!(rg.edges.len(), 12, "8 face-to-bond plus 4 bond-to-centre");
}

#[test]
fn the_constructor_refuses_what_it_cannot_count() {
    assert_eq!(RegionGraph::new(3, &[]).unwrap_err(), RegionError::NoOuterRegions { n: 3 });
    assert_eq!(
        RegionGraph::new(3, &[vec![0, 1], vec![]]).unwrap_err(),
        RegionError::EmptyRegion { index: 1 }
    );
    assert_eq!(
        RegionGraph::new(3, &[vec![0, 1], vec![1, 7]]).unwrap_err(),
        RegionError::OutOfRange { index: 1, var: 7, n: 3 }
    );
    assert_eq!(
        RegionGraph::new(40, &[(0..40).collect()]).unwrap_err(),
        RegionError::TooLarge { index: 0, vars: 40, max: MAX_REGION }
    );
    assert_eq!(
        RegionGraph::new(4, &[vec![0, 1], vec![1, 2]]).unwrap_err(),
        RegionError::Uncovered { var: 3 }
    );
    let empty = RegionGraph::new(0, &[]).unwrap();
    assert!(empty.is_empty() && empty.counts_each_variable_once());
    let rg = RegionGraph::new(3, &[vec![0, 1, 2], vec![0, 1], vec![0, 1, 2]]).unwrap();
    assert_eq!(rg.regions, vec![vec![0, 1, 2]]);
    assert_eq!(rg.counting, vec![1]);
    assert!(rg.counts_each_variable_once());
    let rg = RegionGraph::new(4, &[vec![0, 1, 2], vec![1, 2, 3]]).unwrap();
    assert_eq!(rg.regions, vec![vec![0, 1, 2], vec![1, 2, 3], vec![1, 2]]);
    assert_eq!(rg.counting, vec![1, 1, -1]);
    assert!(rg.counts_each_variable_once());
    for e in [
        RegionError::NoOuterRegions { n: 3 },
        RegionError::EmptyRegion { index: 1 },
        RegionError::OutOfRange { index: 1, var: 7, n: 3 },
        RegionError::TooLarge { index: 0, vars: 40, max: MAX_REGION },
        RegionError::Uncovered { var: 3 },
    ] {
        assert!(e.message().len() > 20, "{e:?}");
    }
}

#[test]
fn a_refusal_names_its_numbers() {
    assert_eq!(
        RegionError::OutOfRange { index: 1, var: 7, n: 3 }.message(),
        "outer region 1 names variable 7, but the model has 3 of them (0..3)"
    );
    assert_eq!(RegionError::EmptyRegion { index: 120 }.message(), "outer region 120 names no variables");
    assert!(RegionError::TooLarge { index: 0, vars: 40, max: 16 }
        .message()
        .starts_with("outer region 0 has 40 variables and its belief table would be 2^40; the cap is 16."));
}

#[test]
fn an_isolated_spin_still_gets_a_region() {
    let g = build(4, &[(0, 1, 0.7), (1, 2, -0.4)], &[(3, 0.9)]);
    let rg = RegionGraph::bethe(&g);
    assert!(rg.counts_each_variable_once());
    assert!(rg.regions.contains(&vec![3]));
    assert_eq!(rg.variable_counting(3), 1);
    assert_eq!(rg.variable_counting(1), 1);
}

#[test]
fn the_bethe_counting_number_of_a_shared_endpoint_is_one_minus_its_degree() {
    let g = ring(6, 1.0, 0.0);
    let rg = RegionGraph::bethe(&g);
    for (r, c) in rg.regions.iter().zip(&rg.counting) {
        match r.len() {
            2 => assert_eq!(*c, 1, "{r:?}"),
            1 => assert_eq!(*c, -1, "{r:?}: a ring spin has degree two"),
            _ => panic!("a ring's Bethe regions are bonds and spins, not {r:?}"),
        }
    }
    assert_eq!(rg.len(), 12);
}

#[test]
fn an_outer_region_is_normalised_before_it_is_counted() {
    let rg = RegionGraph::new(3, &[vec![2, 0, 2, 1]]).unwrap();
    assert_eq!(rg.regions, vec![vec![0, 1, 2]]);
    assert_eq!(
        RegionGraph::new(2, &[vec![1, 1, 5, 5]]).unwrap_err(),
        RegionError::OutOfRange { index: 0, var: 5, n: 2 }
    );
}

#[test]
fn plaquettes_are_the_faces_of_the_grid() {
    assert_eq!(grid_plaquettes(3, 2), vec![vec![0, 1, 3, 4], vec![1, 2, 4, 5]]);
    assert!(grid_plaquettes(1, 5).is_empty());
    assert!(grid_plaquettes(4, 1).is_empty());
    assert_eq!(grid_plaquettes(4, 4).len(), 9);
}

#[test]
fn a_configuration_projects_onto_the_inner_regions_bits() {
    let outer = [3usize, 5, 8, 9];
    let inner = [8usize, 3];
    let pos = positions(&outer, &inner);
    assert_eq!(pos, vec![2, 0]);
    // cfg bits over outer: bit0 = var 3, bit1 = var 5, bit2 = var 8, bit3 = var 9.
    assert_eq!(project(0b0100, &pos), 0b01);
    assert_eq!(project(0b0001, &pos), 0b10);
    assert_eq!(project(0b1010, &pos), 0b00);
    assert_eq!(project(0b1111, &pos), 0b11);
}
