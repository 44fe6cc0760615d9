use ferrotherm::sparsify::{copies_for, Refused};

#[test]
fn a_variable_that_fits_needs_one_copy() {
    for d in 3..10usize {
        for k in 0..=d {
            assert_eq!(copies_for(k, d), 1, "degree {k} under budget {d}");
        }
    }
}

#[test]
fn the_copy_count_is_the_smallest_path_with_enough_ports() {
    for d in 3..8usize {
        for k in (d + 1)..40usize {
            let c = copies_for(k, d);
            assert!(c >= 2);
            assert!(c * (d - 2) + 2 >= k, "{c} copies of budget {d} hold degree {k}");
            assert!((c - 1) * (d - 2) + 2 < k || c == 2, "and one fewer would not");
        }
    }
    assert_eq!(copies_for(4, 3), 2);
    assert_eq!(copies_for(5, 3), 3);
    assert_eq!(copies_for(13, 4), 6);
}

#[test]
fn a_budget_refusal_shows_the_arithmetic() {
    for budget in [0usize, 1, 2] {
        let m = Refused::BudgetTooSmall { budget }.message();
        assert!(m.contains("c(d-2)+2"), "the refusal shows the arithmetic");
        assert!(m.starts_with(&format!("a degree budget of {budget} cannot")));
    }
}
