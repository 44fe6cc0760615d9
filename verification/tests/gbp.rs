use ferrotherm::gbp::{coupling_bits, edge_plans, entering, EdgePlan};
use ferrotherm::graph::Graph;
use ferrotherm::region::{grid_plaquettes, RegionGraph};

/// Whether region `x` lies inside region `r`.
fn inside(rg: &RegionGraph, r: usize, x: usize) -> bool {
    rg.regions[x].iter().all(|v| rg.regions[r].contains(v))
}

/// The edges entering `r`'s subtree, read straight off the definition.
fn entering_by_definition(rg: &RegionGraph, r: usize) -> Vec<usize> {
    (0..rg.edges.len()).filter(|&e| inside(rg, r, rg.edges[e].1) && !inside(rg, r, rg.edges[e].0)).collect()
}

#[test]
fn a_chain_of_pairs_passes_plain_messages() {
    // Regions [0,1], [1,2] and their meet [1]; edges (0 -> 2) and (1 -> 2).
    let rg = RegionGraph::new(3, &[vec![0, 1], vec![1, 2]]).unwrap();
    assert_eq!(rg.regions, vec![vec![0, 1], vec![1, 2], vec![1]]);
    assert_eq!(rg.edges, vec![(0, 2), (1, 2)]);
    let ent = entering(&rg);
    assert_eq!(ent, vec![vec![1], vec![0], vec![0, 1]]);
    let plans = edge_plans(&rg, &ent);
    assert_eq!(plans.len(), 2);
    let p: &EdgePlan = &plans[0];
    assert_eq!((p.parent, p.child), (0, 2));
    assert_eq!(p.child_pos, vec![1]);
    assert!(p.numer.is_empty() && p.denom.is_empty());
    assert_eq!(plans[1].child_pos, vec![0]);
}

#[test]
fn plaquette_plans_follow_their_definition() {
    let rg = RegionGraph::new(16, &grid_plaquettes(4, 4)).unwrap();
    let ent = entering(&rg);
    for r in 0..rg.regions.len() {
        assert_eq!(ent[r], entering_by_definition(&rg, r), "region {r}");
    }
    let plans = edge_plans(&rg, &ent);
    assert_eq!(plans.len(), rg.edges.len());
    for (e, plan) in plans.iter().enumerate() {
        let (p, c) = rg.edges[e];
        assert_eq!((plan.parent, plan.child), (p, c));
        let numer: Vec<usize> = ent[p].iter().copied().filter(|f| !ent[c].contains(f)).collect();
        let denom: Vec<usize> = ent[c].iter().copied().filter(|&f| f != e && !ent[p].contains(&f)).collect();
        assert_eq!(plan.numer.iter().map(|x| x.0).collect::<Vec<_>>(), numer, "edge {e}");
        assert_eq!(plan.denom.iter().map(|x| x.0).collect::<Vec<_>>(), denom, "edge {e}");
        for (f, pos) in &plan.numer {
            let child = &rg.regions[rg.edges[*f].1];
            let at: Vec<usize> = child.iter().map(|v| rg.regions[p].iter().position(|y| y == v).unwrap()).collect();
            assert_eq!(pos, &at);
        }
        for (f, pos) in &plan.denom {
            let child = &rg.regions[rg.edges[*f].1];
            let at: Vec<usize> = child.iter().map(|v| rg.regions[c].iter().position(|y| y == v).unwrap()).collect();
            assert_eq!(pos, &at);
        }
    }
    // Some edge of a plaquette graph does multiply a message in: the schedule is not the trivial one.
    assert!(plans.iter().any(|p| !p.numer.is_empty()));
}

#[test]
fn a_coupling_is_found_by_its_row() {
    let one = 1.5f64.to_bits();
    let g = Graph::from_csr(3, vec![0; 3], vec![0, 1, 3, 4], vec![1, 0, 2, 1], vec![one, one, 7, 7]).unwrap();
    assert_eq!(coupling_bits(&g, 0, 1), Some(one));
    assert_eq!(coupling_bits(&g, 1, 2), Some(7));
    assert_eq!(coupling_bits(&g, 0, 2), None);
    assert_eq!(coupling_bits(&g, 2, 2), None);
}
