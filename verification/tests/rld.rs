use ferrotherm::rld::{check_ladder, measure_anytime, rungs_between, Attempt, FirstHit, Rld, Trial};
use ferrotherm::rng::Pcg;

fn unit_f64(r: &mut Pcg) -> f64 {
    r.unit53() as f64 / (1u64 << 53) as f64
}

/// The reference solver: succeeds on each step with probability `p`, independently.
struct Bernoulli {
    p: f64,
}

impl FirstHit for Bernoulli {
    /// The unbounded first hit: the run with no budget to stop it.
    fn hit_time(&self, seed: u64) -> Option<u64> {
        self.first_hit(seed, u64::MAX)
    }
    fn label(&self) -> &str {
        "bernoulli"
    }
    fn name(&self) -> &str {
        "bernoulli"
    }
    fn first_hit(&self, seed: u64, budget: u64) -> Option<u64> {
        let mut rng = Pcg::new(seed, 0);
        (1..=budget).find(|_| unit_f64(&mut rng) < self.p)
    }
}

/// A log-spaced ladder of run lengths from `min` to `max`, strictly increasing.
fn ladder(min: u64, max: u64, rungs: usize) -> Vec<u64> {
    assert!(min > 0 && max >= min && rungs > 0);
    if rungs == 1 || max == min {
        return vec![max];
    }
    let (lo, hi) = ((min as f64).ln(), (max as f64).ln());
    let mut out: Vec<u64> = (0..rungs)
        .map(|k| {
            let x = lo + (hi - lo) * k as f64 / (rungs - 1) as f64;
            x.exp().round() as u64
        })
        .collect();
    out[0] = min;
    out[rungs - 1] = max;
    out.dedup();
    out
}

fn success(r: &Rld, k: usize) -> f64 {
    r.solved[k] as f64 / r.attempts[k] as f64
}

fn exact_geometric_trials(k: u32) -> Vec<Trial> {
    let n = 1u64 << k;
    let mut hits: Vec<Option<u64>> = Vec::with_capacity(n as usize);
    for j in 1..=u64::from(k) {
        for _ in 0..(n >> j) {
            hits.push(Some(j));
        }
    }
    while (hits.len() as u64) < n {
        hits.push(None);
    }
    let mut out = Vec::new();
    for t in 1..=u64::from(k) {
        for (seed, h) in hits.iter().enumerate() {
            out.push(Trial { seed: seed as u64, run_length: t, solved: h.is_some_and(|x| x <= t) });
        }
    }
    out
}

#[test]
fn rung_counts_are_the_empirical_cdf_of_the_first_hit_times() {
    let solver = Bernoulli { p: 0.1 };
    let seeds: Vec<u64> = (0..500).collect();
    let rungs = ladder(1, 64, 8);
    let r = measure_anytime(&solver, &seeds, &rungs);
    for (k, &t) in rungs.iter().enumerate() {
        let want = seeds.iter().filter(|&&s| solver.first_hit(s, 64).is_some_and(|h| h <= t)).count();
        assert_eq!(r.solved[k], want, "rung {t}");
        assert_eq!(r.attempts[k], seeds.len());
    }
    assert!(r.solved.windows(2).all(|w| w[0] <= w[1]), "{:?}", r.solved);
}

#[test]
fn the_exact_geometric_ensemble_reproduces_one_minus_one_minus_p_to_the_t() {
    let r = Rld::from_trials("exact-geometric", &exact_geometric_trials(10));
    assert_eq!(r.ladder, (1..=10).collect::<Vec<u64>>());
    for (k, &t) in r.ladder.iter().enumerate() {
        let closed = 1.0 - 0.5f64.powi(t as i32);
        assert_eq!(success(&r, k), closed, "rung {t}");
    }
}

#[test]
fn per_budget_reruns_and_one_long_run_agree_exactly() {
    let solver = Bernoulli { p: 0.08 };
    let seeds: Vec<u64> = (0..300).collect();
    let rungs = ladder(1, 48, 6);
    let cheap = measure_anytime(&solver, &seeds, &rungs);
    let mut trials = Vec::new();
    let mut spent = 0u64;
    for &t in &rungs {
        for &seed in &seeds {
            let h = solver.first_hit(seed, t);
            spent += h.unwrap_or(t);
            trials.push(Trial { seed, run_length: t, solved: h.is_some() });
        }
    }
    let dear = Rld::from_trials("bernoulli", &trials);
    assert_eq!(cheap.trials, dear.trials, "every attempt, not merely every count");
    assert_eq!(cheap.solved, dear.solved);
    assert_eq!(cheap.first_solved_at.len(), dear.first_solved_at.len());
    assert!(spent > cheap.steps_used, "the ladder sweep must cost more, or it is not a saving");
}

#[test]
fn trials_round_trip_the_counts_and_quantize_the_hit_times() {
    let seeds: Vec<u64> = (0..200).collect();
    let rungs = ladder(1, 32, 6);
    let r = measure_anytime(&Bernoulli { p: 0.12 }, &seeds, &rungs);
    let back = Rld::from_trials(&r.solver, &r.trials);
    assert_eq!(back.ladder, r.ladder);
    assert_eq!(back.solved, r.solved);
    assert_eq!(back.attempts, r.attempts);
    for (i, &h) in r.first_solved_at.iter().enumerate() {
        let up = h.and_then(|x| r.ladder.iter().copied().find(|&t| t >= x));
        assert_eq!(back.first_solved_at[i], up, "seed {i}, exact hit {h:?}");
    }
    assert!(back.first_solved_at.iter().zip(&r.first_solved_at).all(|(b, e)| match (b, e) {
        (Some(b), Some(e)) => b >= e,
        (None, None) => true,
        _ => false,
    }));
}

#[test]
fn a_rung_with_no_successes_counts_zero() {
    let none: Vec<Trial> = (0..100).map(|seed| Trial { seed, run_length: 10, solved: false }).collect();
    let r = Rld::from_trials("none", &none);
    assert_eq!(r.attempts, vec![100]);
    assert_eq!(r.solved, vec![0]);
    assert!(r.first_solved_at.iter().all(|f| f.is_none()));
}

#[test]
fn a_rung_that_always_solves_is_every_seeds_first_hit() {
    let all: Vec<Trial> = (0..50).map(|seed| Trial { seed, run_length: 7, solved: true }).collect();
    let r = Rld::from_trials("always", &all);
    assert_eq!(success(&r, 0), 1.0);
    assert_eq!(r.ladder, vec![7]);
    assert!(r.first_solved_at.iter().all(|&f| f == Some(7)));
    assert_eq!(r.steps_used, 350);
}

#[test]
fn trials_out_of_order_come_back_sorted_and_counted() {
    let trials = vec![
        Trial { seed: 9, run_length: 40, solved: true },
        Trial { seed: 2, run_length: 10, solved: false },
        Trial { seed: 9, run_length: 10, solved: true },
        Trial { seed: 2, run_length: 40, solved: true },
        Trial { seed: 5, run_length: 20, solved: false },
    ];
    let r = Rld::from_trials("mixed", &trials);
    assert_eq!(r.solver, "mixed");
    assert_eq!(r.ladder, vec![10, 20, 40]);
    assert_eq!(r.seeds, vec![2, 5, 9]);
    assert_eq!(r.attempts, vec![2, 1, 2]);
    assert_eq!(r.solved, vec![1, 0, 2]);
    assert_eq!(r.first_solved_at, vec![Some(40), None, Some(10)]);
    assert_eq!(r.steps_used, 120);
    assert_eq!(r.trials, trials);
    assert!(r.sound());
}

#[test]
fn the_work_saturates_rather_than_wrapping() {
    let trials = vec![
        Trial { seed: 0, run_length: u64::MAX - 1, solved: false },
        Trial { seed: 1, run_length: 5, solved: false },
    ];
    assert_eq!(Rld::from_trials("big", &trials).steps_used, u64::MAX);
}

#[test]
fn a_ladder_must_be_strictly_increasing_and_the_seeds_nonempty() {
    assert!(check_ladder(&[1, 2], &[1, 5, 9]));
    assert!(!check_ladder(&[], &[1, 5, 9]));
    assert!(!check_ladder(&[1], &[]));
    assert!(!check_ladder(&[1], &[1, 5, 5]));
    assert!(!check_ladder(&[1], &[7, 5]));
}

#[test]
fn known_first_hits_make_a_curve_rung_by_rung() {
    let r = Rld::from_first_hits("given", &[4, 8], &[1, 10, 100], vec![Some(3), None]);
    assert_eq!(r.seeds, vec![4, 8]);
    assert_eq!(r.trials.len(), 6);
    assert_eq!(r.trials[0], Trial { seed: 4, run_length: 1, solved: false });
    assert_eq!(r.trials[2], Trial { seed: 4, run_length: 10, solved: true });
    assert_eq!(r.trials[5], Trial { seed: 8, run_length: 100, solved: false });
    assert_eq!(r.solved, vec![0, 1, 1]);
    assert_eq!(r.attempts, vec![2, 2, 2]);
    assert_eq!(r.steps_used, 103);
    assert_eq!(r.first_solved_at, vec![Some(3), None]);
}

/// A sweep that re-ran each seed at each rung, where seed `i` at rung `t` comes back as `pick`.
fn reruns(seeds: &[u64], ladder: &[u64], pick: impl Fn(usize, u64) -> Attempt) -> Rld {
    let runs: Vec<Vec<Attempt>> =
        ladder.iter().map(|&t| (0..seeds.len()).map(|i| pick(i, t)).collect()).collect();
    Rld::from_reruns("reruns", seeds, ladder, &runs)
}

/// A solver that solves at one rung and misses the longer one keeps the miss in its record, and
/// its first solve is that rung.
#[test]
fn a_rerun_sweep_keeps_a_miss_at_a_longer_rung() {
    let seeds: Vec<u64> = (0..5).collect();
    let rungs = vec![20u64, 40, 80];
    let r = reruns(&seeds, &rungs, |_, t| Attempt { spent: t, solved: t == 40, below: false });
    assert_eq!(r.solved, vec![0, 5, 0], "it solves at 40 and nowhere else");
    assert_eq!(r.attempts, vec![5, 5, 5]);
    assert_eq!(r.first_solved_at, vec![Some(40); 5]);
    assert!(r.trials.iter().filter(|t| t.run_length == 80).all(|t| !t.solved));
    assert_eq!(r.trials.len(), 15);
    assert_eq!(r.steps_used, 5 * (20 + 40 + 80));
    assert!(r.sound());
    assert_eq!(r.solver, "reruns");
}

/// Attempts below the target make the curve unsound, and each is counted.
#[test]
fn a_rerun_sweep_counts_every_attempt_below_the_target() {
    let seeds: Vec<u64> = (0..8).collect();
    let rungs = vec![64u64, 256, 1024];
    let r = reruns(&seeds, &rungs, |_, t| Attempt { spent: t, solved: true, below: true });
    assert_eq!(r.impossible, 24);
    assert!(!r.sound());
    assert_eq!(r.first_solved_at, vec![Some(64); 8]);
}

/// Each seed's first solve is the earliest rung at which it solved, read per seed.
#[test]
fn a_rerun_sweep_quantizes_first_solves_to_the_ladder() {
    let seeds = vec![3u64, 9, 27];
    let rungs = vec![10u64, 100, 1000];
    let r = reruns(&seeds, &rungs, |i, t| Attempt {
        spent: t / 2,
        solved: (i == 0 && t >= 100) || (i == 1 && t == 10),
        below: false,
    });
    assert_eq!(r.first_solved_at, vec![Some(100), Some(10), None]);
    assert_eq!(r.solved, vec![1, 1, 1]);
    assert_eq!(r.steps_used, 3 * (5 + 50 + 500));
    assert_eq!(r.seeds, seeds);
    assert_eq!(r.ladder, rungs);
}

/// The work reported by the attempts saturates rather than wrapping.
#[test]
fn a_rerun_sweeps_work_saturates() {
    let seeds = vec![1u64, 2];
    let rungs = vec![5u64];
    let r = reruns(&seeds, &rungs, |_, _| Attempt { spent: u64::MAX - 1, solved: false, below: false });
    assert_eq!(r.steps_used, u64::MAX);
    assert_eq!(r.first_solved_at, vec![None, None]);
}

fn quantile(r: &Rld, q: f64) -> Option<u64> {
    r.solved_rank((q * r.first_solved_at.len() as f64).ceil() as usize)
}

#[test]
fn quantiles_of_the_exact_ensemble_are_the_geometric_ones() {
    let r = Rld::from_trials("exact-geometric", &exact_geometric_trials(10));
    assert_eq!(quantile(&r, 0.5), Some(1));
    assert_eq!(quantile(&r, 0.75), Some(2));
    assert_eq!(quantile(&r, 0.875), Some(3));
    // 1023 of 1024 seeds ever hit, so anything past that has no answer rather than a big one.
    assert_eq!(quantile(&r, 1.0), None);
}

#[test]
fn the_rank_is_an_order_statistic_of_the_first_solves() {
    let mut r = Rld::from_trials("exact-geometric", &exact_geometric_trials(3));
    r.first_solved_at = vec![Some(7), None, Some(3), Some(7), Some(1)];
    assert_eq!(r.solved_rank(0), Some(1));
    assert_eq!(r.solved_rank(1), Some(1));
    assert_eq!(r.solved_rank(2), Some(3));
    assert_eq!(r.solved_rank(3), Some(7));
    assert_eq!(r.solved_rank(4), Some(7));
    assert_eq!(r.solved_rank(5), None);
    r.first_solved_at = vec![None, None];
    assert_eq!(r.solved_rank(1), None);
}

#[test]
fn rungs_are_pinned_to_their_ends_and_kept_once() {
    assert_eq!(rungs_between(vec![1, 3, 3, 7, 10], 2, 9), vec![2, 3, 7, 9]);
    assert_eq!(rungs_between(vec![5, 5, 5], 5, 5), vec![5]);
    assert_eq!(rungs_between(vec![4], 1, 8), vec![8]);
    let r = rungs_between(vec![1, 1, 2, 2, 2, 40, 90, 100], 1, 100);
    assert_eq!(r, vec![1, 2, 40, 90, 100]);
    assert!(r.windows(2).all(|w| w[0] < w[1]));
}

#[test]
fn a_sweeps_solver_name_is_kept() {
    let r = measure_anytime(&Bernoulli { p: 0.5 }, &[1, 2, 3], &[1, 2, 4]);
    assert_eq!(r.solver, "bernoulli");
}
