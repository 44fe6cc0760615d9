use ferrotherm::restart::{luby, luby_cutoff};

#[test]
fn lubys_sequence_is_the_published_one_and_its_blocks_sum_as_they_must() {
    let want = [1u64, 1, 2, 1, 1, 2, 4, 1, 1, 2, 1, 1, 2, 4, 8, 1, 1, 2, 1, 1, 2, 4, 1, 1, 2, 1, 1, 2, 4, 8, 16];
    for (i, &w) in want.iter().enumerate() {
        assert_eq!(luby(i as u64 + 1), w, "term {}", i + 1);
    }
    for k in 1..=10u64 {
        let sum: u64 = (1..=((1u64 << k) - 1)).map(luby).sum();
        assert_eq!(sum, k * (1u64 << (k - 1)), "block sum at k = {k}");
    }
}

#[test]
fn lubys_term_at_the_end_of_a_block_is_its_power_of_two() {
    for k in 1..=40u64 {
        assert_eq!(luby((1u64 << k) - 1), 1u64 << (k - 1));
    }
    assert_eq!(luby(0), 1, "the zeroth term reads as the first");
}
