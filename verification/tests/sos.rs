use ferrotherm::graph::Graph;
use ferrotherm::sos::{Level2, SosError, MAX_SPINS};

fn binomial(n: usize, k: usize) -> usize {
    if k > n {
        return 0;
    }
    let mut v = 1usize;
    for i in 0..k {
        v = v * (n - i) / (i + 1);
    }
    v
}

#[test]
fn the_basis_and_its_classes_are_the_sizes_the_hierarchy_says() {
    for n in 0..8usize {
        let l2 = Level2::new(n).unwrap();
        assert_eq!(l2.dim(), 1 + n + n * n.saturating_sub(1) / 2);
        let want: usize = (0..=4).map(|k| binomial(n, k)).sum();
        assert_eq!(l2.classes(), want, "n={n}");
        let total: usize = (0..l2.classes()).map(|c| l2.class_size(c)).sum();
        assert_eq!(total, l2.dim() * l2.dim(), "n={n}");
        assert_eq!(l2.monomial(l2.constant_class()), 0);
        assert_eq!(l2.class_size(l2.constant_class()), l2.dim(), "n={n}");
    }
    assert_eq!(
        Level2::new(MAX_SPINS + 1).err(),
        Some(SosError::TooWide { n: MAX_SPINS + 1, max: MAX_SPINS })
    );
}

#[test]
fn the_basis_is_the_constant_then_spins_then_pairs() {
    let l2 = Level2::new(3).unwrap();
    assert_eq!(l2.n(), 3);
    assert_eq!(l2.basis(), &[0b000, 0b001, 0b010, 0b100, 0b011, 0b101, 0b110]);
    assert_eq!(Level2::dim_for(3), 7);
    assert_eq!(Level2::dim_for(0), 1);
    assert_eq!(Level2::dim_for(24), 301);
}

#[test]
fn every_entry_names_the_symmetric_difference_of_its_row_and_column() {
    let l2 = Level2::new(5).unwrap();
    let b = l2.basis().to_vec();
    for a in 0..l2.dim() {
        for c in 0..l2.dim() {
            let k = l2.class_of(a, c);
            assert_eq!(l2.monomial(k), b[a] ^ b[c]);
            assert_eq!(k, l2.class_of(c, a), "the moment matrix is symmetric");
            assert_eq!(k == l2.constant_class(), a == c, "the constant class is the diagonal");
        }
    }
}

#[test]
fn classes_are_numbered_in_the_order_they_first_appear() {
    let l2 = Level2::new(2).unwrap();
    // Basis 1, s0, s1, s0 s1: the first row names 1, s0, s1, s0 s1 in turn.
    assert_eq!(l2.classes(), 4);
    for c in 0..4 {
        assert_eq!(l2.class_of(0, c), c);
    }
    assert_eq!(l2.constant_class(), 0);
    assert_eq!(l2.class_of(1, 2), 3, "s0 times s1 is s0 s1");
    assert_eq!(l2.class_of(1, 3), 2, "s0 times s0 s1 is s1");
    assert_eq!((0..4).map(|c| l2.class_size(c)).collect::<Vec<_>>(), vec![4, 4, 4, 4]);
}

#[test]
fn a_moment_matrix_reads_one_value_per_class() {
    let l2 = Level2::new(3).unwrap();
    let y: Vec<f64> = (0..l2.classes()).map(|c| c as f64 + 0.5).collect();
    let m = l2.moment_matrix(&y);
    assert_eq!(m.len(), l2.dim() * l2.dim());
    for a in 0..l2.dim() {
        for b in 0..l2.dim() {
            assert_eq!(m[a * l2.dim() + b], y[l2.class_of(a, b)]);
            assert_eq!(m[a * l2.dim() + b], m[b * l2.dim() + a]);
        }
        assert_eq!(m[a * l2.dim() + a], y[l2.constant_class()]);
    }
}

#[test]
fn a_states_moments_make_a_rank_one_moment_matrix() {
    let l2 = Level2::new(4).unwrap();
    let s = [1i64, -1, -1, 1];
    let value = |mask: u64| -> i64 { (0..4).filter(|i| mask >> i & 1 == 1).map(|i| s[i]).product() };
    let y: Vec<i64> = (0..l2.classes()).map(|c| value(l2.monomial(c))).collect();
    let m = l2.moment_matrix(&y);
    let z: Vec<i64> = l2.basis().iter().map(|&b| value(b)).collect();
    for a in 0..l2.dim() {
        for b in 0..l2.dim() {
            assert_eq!(m[a * l2.dim() + b], z[a] * z[b]);
        }
    }
}

#[test]
fn a_refusal_states_the_matrix_it_would_have_needed() {
    assert_eq!(
        SosError::TooWide { n: 25, max: 24 }.message(),
        "level 2 needs a 326-row moment matrix for 25 spins, and this module refuses past 24"
    );
    assert_eq!(SosError::NotSymmetric { a: 3, b: 10 }.message(), "the Gram matrix is not symmetric at (3, 10)");
    assert_eq!(SosError::Shape { got: 0, want: 49 }.message(), "the Gram matrix has 0 entries and this basis needs 49");
}

#[test]
fn the_objective_puts_each_weight_negated_on_its_monomial() {
    let l = Level2::new(3).unwrap();
    let h = [0.5f64, -0.25, 0.0];
    let one = 1.5f64.to_bits();
    let g = Graph::from_csr(
        3,
        h.iter().map(|x| x.to_bits()).collect(),
        vec![0, 1, 3, 4],
        vec![1, 0, 2, 1],
        vec![one, one, (-2.0f64).to_bits(), (-2.0f64).to_bits()],
    )
    .unwrap();
    let e: Vec<f64> = l.objective(&g).into_iter().map(f64::from_bits).collect();
    assert_eq!(e.len(), l.classes());
    for c in 0..l.classes() {
        let m = l.monomial(c);
        let want: f64 = match m {
            0b001 => -0.5,
            0b010 => 0.25,
            0b100 => -0.0,
            0b011 => -1.5,
            0b110 => 2.0,
            _ => 0.0,
        };
        assert_eq!(e[c].to_bits(), want.to_bits(), "monomial {m:#b}");
    }
}

/// The value of monomial `m` at state `s`.
fn at(s: &[i8], m: u64) -> i64 {
    (0..s.len()).filter(|&i| (m >> i) & 1 == 1).map(|i| i64::from(s[i])).product()
}

#[test]
fn the_moments_of_a_state_are_rank_one() {
    let l = Level2::new(4).unwrap();
    for mask in 0..16u32 {
        let s: Vec<i8> = (0..4).map(|i| if (mask >> i) & 1 == 1 { 1 } else { -1 }).collect();
        let y: Vec<i64> = (0..l.classes()).map(|c| at(&s, l.monomial(c))).collect();
        let m = l.moment_matrix(&y);
        let z: Vec<i64> = l.basis().iter().map(|&b| at(&s, b)).collect();
        for a in 0..l.dim() {
            for b in 0..l.dim() {
                assert_eq!(m[a * l.dim() + b], z[a] * z[b], "state {s:?}, entry ({a}, {b})");
            }
        }
    }
}
