use ferrotherm::rng::Pcg;

/// The uniform draw of the generator in [0, 1), rebuilt from its 53-bit numerator.
fn unit_f64(r: &mut Pcg) -> f64 {
    r.unit53() as f64 / (1u64 << 53) as f64
}

#[test]
fn a_full_word_is_two_draws_and_the_bits_are_balanced() {
    let (mut a, mut b) = (Pcg::new(9, 3), Pcg::new(9, 3));
    let want = (u64::from(b.next_u32()) << 32) | u64::from(b.next_u32());
    assert_eq!(a.next_u64(), want);

    let mut ones = [0u32; 64];
    let n = 20_000;
    for _ in 0..n {
        let w = a.next_u64();
        for (bit, c) in ones.iter_mut().enumerate() {
            *c += ((w >> bit) & 1) as u32;
        }
    }
    let tol = 2.0 * f64::from(n).sqrt();
    for (bit, &c) in ones.iter().enumerate() {
        let dev = (f64::from(c) - f64::from(n) / 2.0).abs();
        assert!(dev < tol, "bit {bit} was set {c} times of {n}, off by {dev:.0} (tol {tol:.0})");
    }
}

#[test]
fn deterministic_and_uniform() {
    let mut a = Pcg::new(42, 7);
    let mut b = Pcg::new(42, 7);
    for _ in 0..1000 {
        assert_eq!(a.next_u32(), b.next_u32());
    }
    let mut r = Pcg::new(1, 1);
    let n = 100_000;
    let mean: f64 = (0..n).map(|_| unit_f64(&mut r)).sum::<f64>() / n as f64;
    assert!((mean - 0.5).abs() < 0.005, "mean {mean}");
}

/// The reference PCG-XSH-RR step, written independently of the library.
fn reference_step(state: &mut u64, inc: u64) -> u32 {
    let old = *state;
    *state = old.wrapping_mul(6364136223846793005).wrapping_add(inc);
    let xorshifted = (((old >> 18) ^ old) >> 27) as u32;
    let rot = (old >> 59) as u32;
    xorshifted.rotate_right(rot)
}

#[test]
fn the_generator_is_pcg_xsh_rr_seeded_by_two_steps() {
    for (seed, stream) in [(0u64, 0u64), (42, 7), (u64::MAX, 123_456_789), (1, u64::MAX)] {
        let inc = (stream << 1) | 1;
        let mut state = 0u64;
        reference_step(&mut state, inc);
        state = state.wrapping_add(seed);
        reference_step(&mut state, inc);
        let mut r = Pcg::new(seed, stream);
        for _ in 0..100 {
            assert_eq!(r.next_u32(), reference_step(&mut state, inc));
        }
    }
}

#[test]
fn the_unit_numerator_takes_26_then_27_bits() {
    let (mut a, mut b) = (Pcg::new(5, 11), Pcg::new(5, 11));
    for _ in 0..1000 {
        let hi = u64::from(b.next_u32() >> 6);
        let lo = u64::from(b.next_u32() >> 5);
        let u = a.unit53();
        assert_eq!(u, (hi << 27) | lo);
        assert!(u < (1u64 << 53));
    }
}

#[test]
fn different_streams_from_one_seed_differ() {
    let mut a = Pcg::new(3, 1);
    let mut b = Pcg::new(3, 2);
    let same = (0..64).filter(|_| a.next_u32() == b.next_u32()).count();
    assert!(same < 4, "{same} of 64 draws coincided");
}
