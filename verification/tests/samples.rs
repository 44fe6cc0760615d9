use ferrotherm::samples::Plan;

#[test]
fn a_plan_cannot_thin_by_zero() {
    let p = Plan::new(10, 5, 0);
    assert_eq!(p.thin, 1, "thinning by zero would return the same state five times");
    assert_eq!(p.sweeps(), 15);
}

#[test]
fn a_plan_charges_burn_in_plus_draws_times_thinning() {
    let p = Plan::new(100, 20, 7);
    assert_eq!((p.burn_in, p.draws, p.thin), (100, 20, 7));
    assert_eq!(p.sweeps(), 240);
    assert_eq!(Plan::new(0, 0, 3).sweeps(), 0);
}
