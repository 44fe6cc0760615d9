//! Run-length distributions: how often a solver reaches a known optimum, against how long it ran.
//!
//! The record is a list of [`Trial`]s, one per attempt; every count is a summary of it. Success
//! means reaching a known optimum, so a curve is only a measurement when the target was right,
//! which [`Rld::sound`] reports. [`measure_anytime`] runs each seed once to the longest rung and
//! reads every shorter rung off that one trajectory, which is exact for a [`FirstHit`] solver.

use vstd::prelude::*;

verus! {

/// One attempt: a seed, the work it was allowed, and whether it reached the known optimum.
#[derive(Clone, Copy, Debug, PartialEq, Eq)]
pub struct Trial {
    /// Seed of the attempt. Same seed and same run length must reproduce it exactly.
    pub seed: u64,
    /// Work the solver was allowed, in single-spin proposals.
    pub run_length: u64,
    /// Whether it reached the target energy within that budget.
    pub solved: bool,
}

/// An empirical run-length distribution over a seed ensemble.
#[derive(Clone, Debug)]
pub struct Rld {
    /// Which solver produced it.
    pub solver: String,
    /// The seed ensemble, in the order [`Rld::first_solved_at`] is indexed.
    pub seeds: Vec<u64>,
    /// Run lengths measured, strictly increasing, in single-spin proposals.
    pub ladder: Vec<u64>,
    /// Every attempt as it came back. The record; every count below is a summary of it.
    pub trials: Vec<Trial>,
    /// Attempts that reached the target at each rung. Same length as [`Rld::ladder`].
    pub solved: Vec<usize>,
    /// Attempts made at each rung. Same length as [`Rld::ladder`].
    pub attempts: Vec<usize>,
    /// Per seed, the first run length at which it solved; `None` if it never did.
    pub first_solved_at: Vec<Option<u64>>,
    /// Proposals actually spent filling this curve, saturating at `u64::MAX`.
    pub steps_used: u64,
    /// Attempts that came back below the target, meaning the target was not the optimum.
    pub impossible: usize,
}

/// Whether `s` is strictly increasing.
pub open spec fn increasing(s: Seq<u64>) -> bool {
    forall|p: int, q: int| 0 <= p < q < s.len() ==> s[p] < s[q]
}

/// Whether `v` lists the values of `s` once each, in increasing order.
pub open spec fn sorted_values(s: Seq<u64>, v: Seq<u64>) -> bool {
    increasing(v) && forall|x: u64| v.contains(x) <==> s.contains(x)
}

/// The run lengths of `trials`, in order.
pub open spec fn run_lengths(trials: Seq<Trial>) -> Seq<u64> {
    Seq::new(trials.len(), |q: int| trials[q].run_length)
}

/// The seeds of `trials`, in order.
pub open spec fn trial_seeds(trials: Seq<Trial>) -> Seq<u64> {
    Seq::new(trials.len(), |q: int| trials[q].seed)
}

/// How many of `trials` ran for exactly `t`.
pub open spec fn count_runs(trials: Seq<Trial>, t: u64) -> nat
    decreases trials.len(),
{
    if trials.len() == 0 {
        0
    } else {
        count_runs(trials.drop_last(), t) + (if trials.last().run_length == t {
            1nat
        } else {
            0nat
        })
    }
}

/// How many of `trials` ran for exactly `t` and solved.
pub open spec fn count_solved(trials: Seq<Trial>, t: u64) -> nat
    decreases trials.len(),
{
    if trials.len() == 0 {
        0
    } else {
        count_solved(trials.drop_last(), t) + (if trials.last().run_length == t
            && trials.last().solved {
            1nat
        } else {
            0nat
        })
    }
}

/// The total work `trials` were allowed.
pub open spec fn run_total(trials: Seq<Trial>) -> int
    decreases trials.len(),
{
    if trials.len() == 0 {
        0
    } else {
        run_total(trials.drop_last()) + trials.last().run_length as int
    }
}

/// `v` with `x` as an extra value, still increasing and still once each.
fn insert_value(v: &mut Vec<u64>, x: u64)
    requires
        increasing(old(v)@),
    ensures
        increasing(final(v)@),
        forall|y: u64| #[trigger] final(v)@.contains(y) <==> (old(v)@.contains(y) || y == x),
        final(v)@.len() <= old(v)@.len() + 1,
{
    let mut at: usize = 0;
    while at < v.len() && v[at] < x
        invariant
            at <= v@.len(),
            v@ == old(v)@,
            forall|p: int| 0 <= p < at ==> v@[p] < x,
        decreases v@.len() - at,
    {
        at += 1;
    }
    if at < v.len() && v[at] == x {
        assert(v@.contains(x));
    } else {
        insert_at(v, at, x);
    }
}

/// Insert `x` at `at`, where everything before is below `x` and everything from `at` on is above.
fn insert_at(v: &mut Vec<u64>, at: usize, x: u64)
    requires
        increasing(old(v)@),
        at <= old(v)@.len(),
        forall|p: int| 0 <= p < at ==> old(v)@[p] < x,
        at < old(v)@.len() ==> old(v)@[at as int] > x,
    ensures
        increasing(final(v)@),
        forall|y: u64| #[trigger] final(v)@.contains(y) <==> (old(v)@.contains(y) || y == x),
        final(v)@.len() == old(v)@.len() + 1,
{
    let ghost before = v@;
    v.insert(at, x);
    assert forall|p: int| at < p < v@.len() implies v@[p] > x by {
        assert(v@[p] == before[p - 1]);
        if p - 1 > at {
            assert(before[at as int] < before[p - 1]);
        }
    }
    assert forall|p: int, q: int| 0 <= p < q < v@.len() implies v@[p] < v@[q] by {
        if q < at {
            assert(v@[p] == before[p] && v@[q] == before[q]);
        } else if q == at {
        } else if p > at {
            assert(v@[p] == before[p - 1] && v@[q] == before[q - 1]);
        } else if p == at {
        } else {
            assert(v@[p] == before[p]);
        }
    }
    assert forall|y: u64| v@.contains(y) <==> (before.contains(y) || y == x) by {
        if v@.contains(y) {
            let p = choose|p: int| 0 <= p < v@.len() && v@[p] == y;
            if p < at {
                assert(before[p] == y);
            } else if p > at {
                assert(before[p - 1] == y);
            }
        }
        if before.contains(y) {
            let p = choose|p: int| 0 <= p < before.len() && before[p] == y;
            if p < at {
                assert(v@[p] == y);
            } else {
                assert(v@[p + 1] == y);
            }
        }
        assert(v@[at as int] == x);
    }
}

/// Where `x` sits in the increasing `v`, which holds it.
fn position(v: &[u64], x: u64) -> (i: usize)
    requires
        increasing(v@),
        v@.contains(x),
    ensures
        i < v@.len(),
        v@[i as int] == x,
{
    let ghost w = choose|w: int| 0 <= w < v@.len() && v@[w] == x;
    let mut lo: usize = 0;
    let mut hi: usize = v.len();
    while lo + 1 < hi
        invariant
            increasing(v@),
            0 <= w < v@.len(),
            v@[w] == x,
            lo <= w < hi <= v@.len(),
        decreases hi - lo,
    {
        let mid = lo + (hi - lo) / 2;
        if v[mid] <= x {
            if v[mid] < x {
                assert(w > mid) by {
                    if w < mid {
                        assert(v@[w] < v@[mid as int]);
                    }
                }
            }
            lo = mid;
        } else {
            assert(w < mid) by {
                if w > mid {
                    assert(v@[mid as int] < v@[w]);
                }
            }
            hi = mid;
        }
    }
    lo
}

/// A copy of `s`.
fn copy_values(s: &[u64]) -> (v: Vec<u64>)
    ensures
        v@ == s@,
{
    let mut v: Vec<u64> = Vec::new();
    let mut q: usize = 0;
    while q < s.len()
        invariant
            q <= s@.len(),
            v@ == s@.take(q as int),
        decreases s@.len() - q,
    {
        v.push(s[q]);
        q += 1;
        assert(v@ =~= s@.take(q as int));
    }
    assert(s@.take(q as int) =~= s@);
    v
}

/// A copy of `s`.
fn copy_trials(s: &[Trial]) -> (v: Vec<Trial>)
    ensures
        v@ == s@,
{
    let mut v: Vec<Trial> = Vec::new();
    let mut q: usize = 0;
    while q < s.len()
        invariant
            q <= s@.len(),
            v@ == s@.take(q as int),
        decreases s@.len() - q,
    {
        v.push(s[q]);
        q += 1;
        assert(v@ =~= s@.take(q as int));
    }
    assert(s@.take(q as int) =~= s@);
    v
}

/// Rung counts, taken from the attempts themselves: per rung, how many trials solved at it and
/// how many ran at it. Every trial's run length must be a rung.
fn tally(ladder: &[u64], trials: &[Trial]) -> (counts: (Vec<usize>, Vec<usize>))
    requires
        increasing(ladder@),
        forall|q: int| 0 <= q < trials@.len() ==> ladder@.contains(#[trigger] trials@[q].run_length),
    ensures
        counts.0@.len() == ladder@.len(),
        counts.1@.len() == ladder@.len(),
        forall|k: int|
            0 <= k < ladder@.len() ==> #[trigger] counts.0@[k] == count_solved(trials@, ladder@[k]),
        forall|k: int|
            0 <= k < ladder@.len() ==> #[trigger] counts.1@[k] == count_runs(trials@, ladder@[k]),
{
    let mut solved: Vec<usize> = Vec::new();
    let mut attempts: Vec<usize> = Vec::new();
    let mut k: usize = 0;
    while k < ladder.len()
        invariant
            k <= ladder@.len(),
            solved@.len() == k,
            attempts@.len() == k,
            forall|p: int| 0 <= p < k ==> solved@[p] == 0 && attempts@[p] == 0,
        decreases ladder@.len() - k,
    {
        solved.push(0);
        attempts.push(0);
        k += 1;
    }
    let mut q: usize = 0;
    while q < trials.len()
        invariant
            increasing(ladder@),
            forall|q: int| 0 <= q < trials@.len() ==> ladder@.contains(#[trigger] trials@[q].run_length),
            q <= trials@.len(),
            solved@.len() == ladder@.len(),
            attempts@.len() == ladder@.len(),
            forall|p: int|
                0 <= p < ladder@.len() ==> #[trigger] solved@[p] == count_solved(
                    trials@.take(q as int),
                    ladder@[p],
                ),
            forall|p: int|
                0 <= p < ladder@.len() ==> #[trigger] attempts@[p] == count_runs(
                    trials@.take(q as int),
                    ladder@[p],
                ),
        decreases trials@.len() - q,
    {
        let t = trials[q];
        assert(ladder@.contains(trials@[q as int].run_length));
        let k = position(ladder, t.run_length);
        let ghost pre = trials@.take(q as int);
        proof {
            assert(trials@.take(q + 1) =~= pre.push(t));
            assert(trials@.take(q + 1).drop_last() =~= pre);
            lemma_counts_bounded(pre, ladder@[k as int]);
        }
        let a = attempts[k];
        attempts.set(k, a + 1);
        if t.solved {
            let s = solved[k];
            solved.set(k, s + 1);
        }
        proof {
            assert forall|p: int| 0 <= p < ladder@.len() implies #[trigger] attempts@[p] == count_runs(
                trials@.take(q + 1),
                ladder@[p],
            ) by {
                if p != k {
                    assert(ladder@[p] != ladder@[k as int]) by {
                        if p < k {
                            assert(ladder@[p] < ladder@[k as int]);
                        } else {
                            assert(ladder@[k as int] < ladder@[p]);
                        }
                    }
                }
            }
            assert forall|p: int| 0 <= p < ladder@.len() implies #[trigger] solved@[p] == count_solved(
                trials@.take(q + 1),
                ladder@[p],
            ) by {
                if p != k {
                    assert(ladder@[p] != ladder@[k as int]) by {
                        if p < k {
                            assert(ladder@[p] < ladder@[k as int]);
                        } else {
                            assert(ladder@[k as int] < ladder@[p]);
                        }
                    }
                }
            }
        }
        q += 1;
    }
    assert(trials@.take(q as int) =~= trials@);
    (solved, attempts)
}

/// Counts never exceed the number of trials.
proof fn lemma_counts_bounded(trials: Seq<Trial>, t: u64)
    ensures
        count_solved(trials, t) <= count_runs(trials, t) <= trials.len(),
    decreases trials.len(),
{
    if trials.len() > 0 {
        lemma_counts_bounded(trials.drop_last(), t);
    }
}

/// What `f` says of the first solve of `seed` among `trials`: `None` when no trial of that seed
/// solved, else the shortest run length of one that did.
pub open spec fn first_solve(trials: Seq<Trial>, seed: u64, f: Option<u64>) -> bool {
    match f {
        None => forall|q: int|
            0 <= q < trials.len() && #[trigger] trials[q].seed == seed ==> !trials[q].solved,
        Some(r) => {
            &&& exists|q: int|
                0 <= q < trials.len() && #[trigger] trials[q].seed == seed && trials[q].solved
                    && trials[q].run_length == r
            &&& forall|q: int|
                0 <= q < trials.len() && #[trigger] trials[q].seed == seed && trials[q].solved
                    ==> r <= trials[q].run_length
        },
    }
}

/// `min(u64::MAX, v)`.
pub open spec fn saturated(v: int) -> int {
    if v > u64::MAX {
        u64::MAX as int
    } else {
        v
    }
}

/// The values of `s` among its first `q` entries.
proof fn lemma_take_push(s: Seq<u64>, q: int)
    requires
        0 <= q < s.len(),
    ensures
        forall|x: u64| s.take(q + 1).contains(x) <==> (s.take(q).contains(x) || x == s[q]),
{
    let a = s.take(q);
    let b = s.take(q + 1);
    assert(b =~= a.push(s[q]));
    assert forall|x: u64| b.contains(x) <==> (a.contains(x) || x == s[q]) by {
        if b.contains(x) {
            let p = choose|p: int| 0 <= p < b.len() && b[p] == x;
            if p < q {
                assert(a[p] == x);
            }
        }
        if a.contains(x) {
            let p = choose|p: int| 0 <= p < a.len() && a[p] == x;
            assert(b[p] == x);
        }
        assert(b[q] == s[q]);
    }
}

impl Rld {
    /// Rebuild a curve from trials measured elsewhere.
    ///
    /// Rungs are the distinct run lengths present, in increasing order; the seeds come back sorted
    /// and distinct; each seed's first solve is the shortest run length at which one of its trials
    /// solved; `steps_used` is the trials' total run length, saturating. `trials` must be nonempty:
    /// an RLD over no trials is not a measurement.
    pub fn from_trials(solver: &str, trials: &[Trial]) -> (r: Rld)
        requires
            trials@.len() > 0,
        ensures
            r.solver@ == solver@,
            sorted_values(run_lengths(trials@), r.ladder@),
            sorted_values(trial_seeds(trials@), r.seeds@),
            r.trials@ == trials@,
            r.solved@.len() == r.ladder@.len(),
            r.attempts@.len() == r.ladder@.len(),
            forall|k: int|
                0 <= k < r.ladder@.len() ==> #[trigger] r.solved@[k] == count_solved(
                    trials@,
                    r.ladder@[k],
                ),
            forall|k: int|
                0 <= k < r.ladder@.len() ==> #[trigger] r.attempts@[k] == count_runs(
                    trials@,
                    r.ladder@[k],
                ),
            r.first_solved_at@.len() == r.seeds@.len(),
            forall|i: int|
                0 <= i < r.seeds@.len() ==> first_solve(
                    trials@,
                    r.seeds@[i],
                    #[trigger] r.first_solved_at@[i],
                ),
            r.steps_used == saturated(run_total(trials@)),
            r.impossible == 0,
    {
        let mut ladder: Vec<u64> = Vec::new();
        let mut seeds: Vec<u64> = Vec::new();
        let mut q: usize = 0;
        while q < trials.len()
            invariant
                q <= trials@.len(),
                increasing(ladder@),
                increasing(seeds@),
                forall|x: u64| ladder@.contains(x) <==> run_lengths(trials@).take(q as int).contains(x),
                forall|x: u64| seeds@.contains(x) <==> trial_seeds(trials@).take(q as int).contains(x),
            decreases trials@.len() - q,
        {
            proof {
                lemma_take_push(run_lengths(trials@), q as int);
                lemma_take_push(trial_seeds(trials@), q as int);
                assert(run_lengths(trials@)[q as int] == trials@[q as int].run_length);
                assert(trial_seeds(trials@)[q as int] == trials@[q as int].seed);
            }
            let ghost old_seeds = seeds@;
            insert_value(&mut ladder, trials[q].run_length);
            insert_value(&mut seeds, trials[q].seed);
            assert forall|x: u64| seeds@.contains(x) <==> trial_seeds(trials@).take(q + 1).contains(x) by {
                assert(seeds@.contains(x) <==> (old_seeds.contains(x) || x == trials@[q as int].seed));
                assert(old_seeds.contains(x) <==> trial_seeds(trials@).take(q as int).contains(x));
            }
            q += 1;
        }
        assert(run_lengths(trials@).take(q as int) =~= run_lengths(trials@));
        assert(trial_seeds(trials@).take(q as int) =~= trial_seeds(trials@));
        assert forall|p: int| 0 <= p < trials@.len() implies ladder@.contains(
            #[trigger] trials@[p].run_length,
        ) by {
            assert(run_lengths(trials@)[p] == trials@[p].run_length);
        }
        let (solved, attempts) = tally(ladder.as_slice(), trials);
        let mut first: Vec<Option<u64>> = Vec::new();
        let mut i: usize = 0;
        while i < seeds.len()
            invariant
                i <= seeds@.len(),
                first@.len() == i,
                forall|p: int| 0 <= p < i ==> first@[p] is None,
            decreases seeds@.len() - i,
        {
            first.push(None);
            i += 1;
        }
        let mut steps_used: u64 = 0;
        let mut q: usize = 0;
        while q < trials.len()
            invariant
                q <= trials@.len(),
                increasing(seeds@),
                forall|x: u64| seeds@.contains(x) <==> trial_seeds(trials@).contains(x),
                first@.len() == seeds@.len(),
                forall|i: int|
                    0 <= i < seeds@.len() ==> first_solve(
                        trials@.take(q as int),
                        seeds@[i],
                        #[trigger] first@[i],
                    ),
                steps_used == saturated(run_total(trials@.take(q as int))),
            decreases trials@.len() - q,
        {
            let t = trials[q];
            let ghost pre = trials@.take(q as int);
            let ghost post = trials@.take(q + 1);
            proof {
                assert(post =~= pre.push(t));
                assert(post.drop_last() =~= pre);
            }
            steps_used = steps_used.saturating_add(t.run_length);
            if t.solved {
                assert(trial_seeds(trials@)[q as int] == t.seed);
                let si = position(seeds.as_slice(), t.seed);
                let ghost old_first = first@;
                let replace = match first[si] {
                    None => true,
                    Some(had) => t.run_length < had,
                };
                if replace {
                    first.set(si, Some(t.run_length));
                }
                proof {
                    assert(post[q as int] == t);
                    assert forall|i: int| 0 <= i < seeds@.len() implies first_solve(
                        post,
                        seeds@[i],
                        #[trigger] first@[i],
                    ) by {
                        assert(first_solve(pre, seeds@[i], old_first[i]));
                        if i != si {
                            assert(first@[i] == old_first[i]);
                            assert(seeds@[i] != seeds@[si as int]) by {
                                if i < si {
                                    assert(seeds@[i] < seeds@[si as int]);
                                } else {
                                    assert(seeds@[si as int] < seeds@[i]);
                                }
                            }
                            match old_first[i] {
                                None => {
                                    assert forall|p: int|
                                        0 <= p < post.len() && #[trigger] post[p].seed == seeds@[i]
                                            implies !post[p].solved by {
                                        if p < q {
                                            assert(post[p] == pre[p]);
                                        }
                                    }
                                },
                                Some(r) => {
                                    let w = choose|w: int|
                                        0 <= w < pre.len() && #[trigger] pre[w].seed == seeds@[i]
                                            && pre[w].solved && pre[w].run_length == r;
                                    assert(post[w] == pre[w]);
                                    assert forall|p: int|
                                        0 <= p < post.len() && #[trigger] post[p].seed == seeds@[i]
                                            && post[p].solved implies r <= post[p].run_length by {
                                        if p < q {
                                            assert(post[p] == pre[p]);
                                        }
                                    }
                                },
                            }
                        } else if replace {
                            assert(first@[i] == Some(t.run_length));
                            assert(post[q as int].seed == seeds@[i]);
                            assert forall|p: int|
                                0 <= p < post.len() && #[trigger] post[p].seed == seeds@[i]
                                    && post[p].solved implies t.run_length <= post[p].run_length by {
                                if p < q {
                                    assert(post[p] == pre[p]);
                                    assert(pre[p].seed == seeds@[i] && pre[p].solved);
                                }
                            }
                        } else {
                            assert(first@[i] == old_first[i]);
                            let r = old_first[i]->0;
                            let w = choose|w: int|
                                0 <= w < pre.len() && #[trigger] pre[w].seed == seeds@[i]
                                    && pre[w].solved && pre[w].run_length == r;
                            assert(post[w] == pre[w]);
                            assert forall|p: int|
                                0 <= p < post.len() && #[trigger] post[p].seed == seeds@[i]
                                    && post[p].solved implies r <= post[p].run_length by {
                                if p < q {
                                    assert(post[p] == pre[p]);
                                }
                            }
                        }
                    }
                }
            } else {
                proof {
                    assert forall|i: int| 0 <= i < seeds@.len() implies first_solve(
                        post,
                        seeds@[i],
                        #[trigger] first@[i],
                    ) by {
                        assert(first_solve(pre, seeds@[i], first@[i]));
                        match first@[i] {
                            None => {
                                assert forall|p: int|
                                    0 <= p < post.len() && #[trigger] post[p].seed == seeds@[i]
                                        implies !post[p].solved by {
                                    if p < q {
                                        assert(post[p] == pre[p]);
                                    }
                                }
                            },
                            Some(r) => {
                                let w = choose|w: int|
                                    0 <= w < pre.len() && #[trigger] pre[w].seed == seeds@[i]
                                        && pre[w].solved && pre[w].run_length == r;
                                assert(post[w] == pre[w]);
                                assert forall|p: int|
                                    0 <= p < post.len() && #[trigger] post[p].seed == seeds@[i]
                                        && post[p].solved implies r <= post[p].run_length by {
                                    if p < q {
                                        assert(post[p] == pre[p]);
                                    }
                                }
                            },
                        }
                    }
                }
            }
            q += 1;
        }
        assert(trials@.take(q as int) =~= trials@);
        let all = copy_trials(trials);
        Rld {
            solver: solver.to_owned(),
            seeds,
            ladder,
            trials: all,
            solved,
            attempts,
            first_solved_at: first,
            steps_used,
            impossible: 0,
        }
    }

    /// Whether the target was consistent with every attempt: false means it was not the optimum.
    pub fn sound(&self) -> (ok: bool)
        ensures
            ok == (self.impossible == 0),
    {
        self.impossible == 0
    }
}

// ---------------------------------------------------------------------------------------------
// Sweeping a ladder with one run per seed.
// ---------------------------------------------------------------------------------------------

/// What a run with budget `b` reports of an unbounded first hit `h`: the hit if it came within
/// the budget, else nothing.
pub open spec fn within(h: Option<u64>, b: u64) -> Option<u64> {
    match h {
        Some(x) => if x <= b {
            Some(x)
        } else {
            None
        },
        None => None,
    }
}

/// Whether a first hit `h` came at or before run length `t`.
pub open spec fn hit_by(h: Option<u64>, t: u64) -> bool {
    match h {
        Some(x) => x <= t,
        None => false,
    }
}

/// A solver that reports the step at which it first reached the target, not just its best answer.
///
/// Narrower than a general search and stronger: a solver that can say when it hit needs one run per
/// seed to fill an entire ladder. Implement it only where the trajectory is independent of the
/// budget: the answer for a budget is the unbounded first hit, cut at that budget, so a shorter
/// budget returns the same answer as the prefix of a longer one and the answer is deterministic in
/// the seed.
pub trait FirstHit {
    /// The step at which `seed` first reaches the target when run without limit, `None` if never.
    spec fn hit_time(&self, seed: u64) -> Option<u64>;

    /// The name [`FirstHit::name`] reports.
    spec fn label(&self) -> &str;

    /// A stable name for reports.
    fn name(&self) -> (s: &str)
        ensures
            s@ == self.label()@,
    ;

    /// The 1-based step at which `seed` first reached the target, or `None` within `budget`.
    /// `Some(0)` means the initial state was already optimal.
    fn first_hit(&self, seed: u64, budget: u64) -> (h: Option<u64>)
        ensures
            h == within(self.hit_time(seed), budget),
    ;
}

/// Whether a sweep over `seeds` and `ladder` is a measurement: some seeds, some rungs, and the rungs
/// strictly increasing.
pub open spec fn ladder_ok(seeds: Seq<u64>, ladder: Seq<u64>) -> bool {
    seeds.len() > 0 && ladder.len() > 0 && increasing(ladder)
}

/// Whether `seeds` and `ladder` make a measurement; see [`ladder_ok`].
pub fn check_ladder(seeds: &[u64], ladder: &[u64]) -> (ok: bool)
    ensures
        ok == ladder_ok(seeds@, ladder@),
{
    if seeds.len() == 0 || ladder.len() == 0 {
        return false;
    }
    let mut k: usize = 1;
    while k < ladder.len()
        invariant
            1 <= k <= ladder@.len(),
            forall|p: int, q: int| 0 <= p < q < k ==> ladder@[p] < ladder@[q],
        decreases ladder@.len() - k,
    {
        if ladder[k - 1] >= ladder[k] {
            return false;
        }
        proof {
            assert forall|p: int, q: int| 0 <= p < q < k + 1 implies ladder@[p] < ladder@[q] by {
                if q == k && p < k - 1 {
                    assert(ladder@[p] < ladder@[k - 1]);
                }
            }
        }
        k += 1;
    }
    true
}

/// The attempts at rung `k` read off one run per seed, in seed order.
pub open spec fn rung_trials(seeds: Seq<u64>, ladder: Seq<u64>, first: Seq<Option<u64>>, k: int) -> Seq<Trial> {
    Seq::new(
        seeds.len(),
        |i: int| Trial { seed: seeds[i], run_length: ladder[k], solved: hit_by(first[i], ladder[k]) },
    )
}

/// The attempts at the first `k` rungs, rung by rung.
pub open spec fn sweep_trials(seeds: Seq<u64>, ladder: Seq<u64>, first: Seq<Option<u64>>, k: int) -> Seq<Trial>
    decreases k,
{
    if k <= 0 {
        seq![]
    } else {
        sweep_trials(seeds, ladder, first, k - 1) + rung_trials(seeds, ladder, first, k - 1)
    }
}

/// The work a sweep spent: each seed's run to its first hit, or to `longest` if it never hit.
pub open spec fn hit_work(first: Seq<Option<u64>>, longest: u64) -> int
    decreases first.len(),
{
    if first.len() == 0 {
        0
    } else {
        hit_work(first.drop_last(), longest) + match first.last() {
            Some(h) => h as int,
            None => longest as int,
        }
    }
}

/// How many of the first hits came at or before `t`.
pub open spec fn hits_by(first: Seq<Option<u64>>, t: u64) -> nat
    decreases first.len(),
{
    if first.len() == 0 {
        0
    } else {
        hits_by(first.drop_last(), t) + (if hit_by(first.last(), t) {
            1nat
        } else {
            0nat
        })
    }
}

impl Rld {
    /// The curve of a sweep whose first hits are known: at rung `t`, seed `i` solved exactly when
    /// `first[i]` came at or before `t`. Trials are rung by rung, seeds in order within a rung; the
    /// work is each seed's first hit, or the longest rung for a seed that never hit.
    pub fn from_first_hits(
        solver: &str,
        seeds: &[u64],
        ladder: &[u64],
        first: Vec<Option<u64>>,
    ) -> (r: Rld)
        requires
            ladder_ok(seeds@, ladder@),
            first@.len() == seeds@.len(),
            ladder@.len() * seeds@.len() <= usize::MAX,
        ensures
            r.solver@ == solver@,
            r.seeds@ == seeds@,
            r.ladder@ == ladder@,
            r.first_solved_at@ == first@,
            r.trials@ == sweep_trials(seeds@, ladder@, first@, ladder@.len() as int),
            r.solved@.len() == ladder@.len(),
            r.attempts@.len() == ladder@.len(),
            forall|k: int|
                0 <= k < ladder@.len() ==> #[trigger] r.solved@[k] == count_solved(r.trials@, ladder@[k]),
            forall|k: int|
                0 <= k < ladder@.len() ==> #[trigger] r.attempts@[k] == count_runs(r.trials@, ladder@[k]),
            r.steps_used == saturated(hit_work(first@, ladder@.last())),
            r.impossible == 0,
    {
        let longest = ladder[ladder.len() - 1];
        let mut steps_used: u64 = 0;
        let mut i: usize = 0;
        while i < first.len()
            invariant
                i <= first@.len(),
                steps_used == saturated(hit_work(first@.take(i as int), longest)),
            decreases first@.len() - i,
        {
            proof {
                assert(first@.take(i + 1).drop_last() =~= first@.take(i as int));
                assert(first@.take(i + 1).last() == first@[i as int]);
            }
            let w = match first[i] {
                Some(h) => h,
                None => longest,
            };
            steps_used = steps_used.saturating_add(w);
            i += 1;
        }
        assert(first@.take(i as int) =~= first@);
        let mut trials: Vec<Trial> = Vec::new();
        let mut k: usize = 0;
        while k < ladder.len()
            invariant
                ladder_ok(seeds@, ladder@),
                first@.len() == seeds@.len(),
                ladder@.len() * seeds@.len() <= usize::MAX,
                k <= ladder@.len(),
                trials@ == sweep_trials(seeds@, ladder@, first@, k as int),
            decreases ladder@.len() - k,
        {
            let t = ladder[k];
            let mut i: usize = 0;
            let ghost start = trials@;
            while i < seeds.len()
                invariant
                    ladder_ok(seeds@, ladder@),
                    first@.len() == seeds@.len(),
                    k < ladder@.len(),
                    t == ladder@[k as int],
                    i <= seeds@.len(),
                    start == sweep_trials(seeds@, ladder@, first@, k as int),
                    trials@ == start + rung_trials(seeds@, ladder@, first@, k as int).take(i as int),
                decreases seeds@.len() - i,
            {
                let solved = match first[i] {
                    Some(h) => h <= t,
                    None => false,
                };
                let ghost before = trials@;
                trials.push(Trial { seed: seeds[i], run_length: t, solved });
                proof {
                    let row = rung_trials(seeds@, ladder@, first@, k as int);
                    assert(row.take(i + 1) =~= row.take(i as int).push(row[i as int]));
                    assert(trials@ =~= start + row.take(i + 1));
                }
                i += 1;
            }
            proof {
                let row = rung_trials(seeds@, ladder@, first@, k as int);
                assert(row.take(i as int) =~= row);
                assert(sweep_trials(seeds@, ladder@, first@, k + 1) == start + row);
            }
            k += 1;
        }
        proof {
            lemma_sweep_runs_are_rungs(seeds@, ladder@, first@, ladder@.len() as int);
        }
        let (solved, attempts) = tally(ladder, trials.as_slice());
        Rld {
            solver: solver.to_owned(),
            seeds: copy_values(seeds),
            ladder: copy_values(ladder),
            trials,
            solved,
            attempts,
            first_solved_at: first,
            steps_used,
            impossible: 0,
        }
    }
}

/// Every attempt of a sweep ran for one of the ladder's rungs.
proof fn lemma_sweep_runs_are_rungs(seeds: Seq<u64>, ladder: Seq<u64>, first: Seq<Option<u64>>, k: int)
    requires
        0 <= k <= ladder.len(),
    ensures
        sweep_trials(seeds, ladder, first, k).len() == k * seeds.len(),
        forall|q: int|
            0 <= q < sweep_trials(seeds, ladder, first, k).len() ==> ladder.contains(
                #[trigger] sweep_trials(seeds, ladder, first, k)[q].run_length,
            ),
    decreases k,
{
    if k > 0 {
        lemma_sweep_runs_are_rungs(seeds, ladder, first, k - 1);
        let a = sweep_trials(seeds, ladder, first, k - 1);
        let b = rung_trials(seeds, ladder, first, k - 1);
        assert(sweep_trials(seeds, ladder, first, k) == a + b);
        assert(k * seeds.len() == (k - 1) * seeds.len() + seeds.len()) by (nonlinear_arith);
        assert forall|q: int| 0 <= q < (a + b).len() implies ladder.contains(#[trigger] (a + b)[q].run_length) by {
            if q < a.len() {
                assert((a + b)[q] == a[q]);
            } else {
                assert((a + b)[q] == b[q - a.len()]);
                assert(ladder[k - 1] == b[q - a.len()].run_length);
            }
        }
    } else {
        assert(k * seeds.len() == 0) by (nonlinear_arith)
            requires
                k == 0,
        ;
    }
}

/// The first hit each seed reports when run once with budget `longest`.
pub open spec fn long_run_hits<S: FirstHit + ?Sized>(solver: &S, seeds: Seq<u64>, longest: u64) -> Seq<Option<u64>> {
    Seq::new(seeds.len(), |i: int| within(solver.hit_time(seeds[i]), longest))
}

/// Sweep a ladder by running each seed once to the longest rung and reading the rest off it.
///
/// Exact for a [`FirstHit`] solver, whose answer at a shorter budget is the prefix of the longer
/// run: the attempt at rung `t` is solved exactly when a fresh run at budget `t` would report a
/// hit. `seeds` must be nonempty and `ladder` nonempty and strictly increasing.
pub fn measure_anytime<S: FirstHit>(solver: &S, seeds: &[u64], ladder: &[u64]) -> (r: Rld)
    requires
        ladder_ok(seeds@, ladder@),
        ladder@.len() * seeds@.len() <= usize::MAX,
    ensures
        r.solver@ == solver.label()@,
        r.seeds@ == seeds@,
        r.ladder@ == ladder@,
        r.first_solved_at@ == long_run_hits(solver, seeds@, ladder@.last()),
        r.solved@.len() == ladder@.len(),
        r.trials@ == sweep_trials(seeds@, ladder@, r.first_solved_at@, ladder@.len() as int),
        r.attempts@.len() == ladder@.len(),
        forall|k: int|
            0 <= k < ladder@.len() ==> #[trigger] r.solved@[k] == count_solved(r.trials@, ladder@[k]),
        forall|k: int|
            0 <= k < ladder@.len() ==> #[trigger] r.attempts@[k] == count_runs(r.trials@, ladder@[k]),
        r.steps_used == saturated(hit_work(r.first_solved_at@, ladder@.last())),
        r.impossible == 0,
{
    let longest = ladder[ladder.len() - 1];
    let mut first: Vec<Option<u64>> = Vec::new();
    let mut i: usize = 0;
    while i < seeds.len()
        invariant
            ladder_ok(seeds@, ladder@),
            ladder@.len() * seeds@.len() <= usize::MAX,
            longest == ladder@.last(),
            i <= seeds@.len(),
            first@ == long_run_hits(solver, seeds@, longest).take(i as int),
        decreases seeds@.len() - i,
    {
        let h = solver.first_hit(seeds[i], longest);
        first.push(h);
        i += 1;
        assert(first@ =~= long_run_hits(solver, seeds@, longest).take(i as int));
    }
    assert(first@ =~= long_run_hits(solver, seeds@, longest));
    let ghost hits = first@;
    let r = Rld::from_first_hits(solver.name(), seeds, ladder, first);
    assert(r.first_solved_at@ == hits);
    assert(r.steps_used == saturated(hit_work(hits, longest)));
    r
}

// ---------------------------------------------------------------------------------------------
// What a sweep promises.
// ---------------------------------------------------------------------------------------------

/// The attempts of a sweep that re-runs every seed at every rung: rung by rung, and at rung `t`
/// seed `s` solved exactly when a run with budget `t` reports a hit.
pub open spec fn rerun_trials<S: FirstHit + ?Sized>(solver: &S, seeds: Seq<u64>, ladder: Seq<u64>, k: int) -> Seq<Trial>
    decreases k,
{
    if k <= 0 {
        seq![]
    } else {
        rerun_trials(solver, seeds, ladder, k - 1) + Seq::new(
            seeds.len(),
            |i: int|
                Trial {
                    seed: seeds[i],
                    run_length: ladder[k - 1],
                    solved: within(solver.hit_time(seeds[i]), ladder[k - 1]) is Some,
                },
        )
    }
}

/// One run to the longest rung and one run per rung agree on every attempt: reading rung `t` off
/// the long run of a [`FirstHit`] solver gives exactly what a fresh run with budget `t` reports.
pub proof fn lemma_one_long_run_agrees_with_reruns<S: FirstHit + ?Sized>(
    solver: &S,
    seeds: Seq<u64>,
    ladder: Seq<u64>,
)
    requires
        ladder_ok(seeds, ladder),
    ensures
        sweep_trials(seeds, ladder, long_run_hits(solver, seeds, ladder.last()), ladder.len() as int)
            == rerun_trials(solver, seeds, ladder, ladder.len() as int),
{
    let first = long_run_hits(solver, seeds, ladder.last());
    lemma_rows_agree(solver, seeds, ladder, ladder.len() as int);
}

proof fn lemma_rows_agree<S: FirstHit + ?Sized>(solver: &S, seeds: Seq<u64>, ladder: Seq<u64>, k: int)
    requires
        ladder_ok(seeds, ladder),
        0 <= k <= ladder.len(),
    ensures
        sweep_trials(seeds, ladder, long_run_hits(solver, seeds, ladder.last()), k) == rerun_trials(
            solver,
            seeds,
            ladder,
            k,
        ),
    decreases k,
{
    if k > 0 {
        lemma_rows_agree(solver, seeds, ladder, k - 1);
        let first = long_run_hits(solver, seeds, ladder.last());
        let row = rung_trials(seeds, ladder, first, k - 1);
        let fresh = Seq::new(
            seeds.len(),
            |i: int|
                Trial {
                    seed: seeds[i],
                    run_length: ladder[k - 1],
                    solved: within(solver.hit_time(seeds[i]), ladder[k - 1]) is Some,
                },
        );
        assert(ladder[k - 1] <= ladder.last()) by {
            if k - 1 < ladder.len() - 1 {
                assert(ladder[k - 1] < ladder[ladder.len() - 1]);
            }
        }
        assert(row =~= fresh);
    }
}

/// Counting over a concatenation adds the counts.
proof fn lemma_counts_concat(a: Seq<Trial>, b: Seq<Trial>, t: u64)
    ensures
        count_solved(a + b, t) == count_solved(a, t) + count_solved(b, t),
        count_runs(a + b, t) == count_runs(a, t) + count_runs(b, t),
    decreases b.len(),
{
    if b.len() > 0 {
        lemma_counts_concat(a, b.drop_last(), t);
        assert((a + b).drop_last() =~= a + b.drop_last());
        assert((a + b).last() == b.last());
    } else {
        assert(a + b =~= a);
    }
}

/// The counts of one rung of a sweep, over its first `n` seeds.
proof fn lemma_rung_counts(seeds: Seq<u64>, ladder: Seq<u64>, first: Seq<Option<u64>>, k: int, t: u64, n: int)
    requires
        0 <= k < ladder.len(),
        first.len() == seeds.len(),
        0 <= n <= seeds.len(),
    ensures
        count_solved(rung_trials(seeds, ladder, first, k).take(n), t) == (if t == ladder[k] {
            hits_by(first.take(n), t)
        } else {
            0
        }),
        count_runs(rung_trials(seeds, ladder, first, k).take(n), t) == (if t == ladder[k] {
            n
        } else {
            0
        }),
    decreases n,
{
    let row = rung_trials(seeds, ladder, first, k);
    if n > 0 {
        lemma_rung_counts(seeds, ladder, first, k, t, n - 1);
        assert(row.take(n).drop_last() =~= row.take(n - 1));
        assert(first.take(n).drop_last() =~= first.take(n - 1));
        assert(row.take(n).last() == row[n - 1]);
        assert(first.take(n).last() == first[n - 1]);
    } else {
        assert(row.take(0) =~= Seq::<Trial>::empty());
        assert(first.take(0) =~= Seq::<Option<u64>>::empty());
    }
}

/// The counts at rung `k0` of the first `k` rungs of a sweep.
proof fn lemma_sweep_counts(seeds: Seq<u64>, ladder: Seq<u64>, first: Seq<Option<u64>>, k: int, k0: int)
    requires
        ladder_ok(seeds, ladder),
        first.len() == seeds.len(),
        0 <= k <= ladder.len(),
        0 <= k0 < ladder.len(),
    ensures
        count_solved(sweep_trials(seeds, ladder, first, k), ladder[k0]) == (if k0 < k {
            hits_by(first, ladder[k0])
        } else {
            0
        }),
        count_runs(sweep_trials(seeds, ladder, first, k), ladder[k0]) == (if k0 < k {
            seeds.len()
        } else {
            0
        }),
    decreases k,
{
    if k > 0 {
        lemma_sweep_counts(seeds, ladder, first, k - 1, k0);
        let a = sweep_trials(seeds, ladder, first, k - 1);
        let row = rung_trials(seeds, ladder, first, k - 1);
        lemma_counts_concat(a, row, ladder[k0]);
        lemma_rung_counts(seeds, ladder, first, k - 1, ladder[k0], seeds.len() as int);
        assert(row.take(seeds.len() as int) =~= row);
        assert(first.take(seeds.len() as int) =~= first);
        if k0 != k - 1 {
            assert(ladder[k0] != ladder[k - 1]) by {
                if k0 < k - 1 {
                    assert(ladder[k0] < ladder[k - 1]);
                } else {
                    assert(ladder[k - 1] < ladder[k0]);
                }
            }
        }
    }
}

/// More work never solves fewer seeds.
proof fn lemma_hits_by_monotone(first: Seq<Option<u64>>, t1: u64, t2: u64)
    requires
        t1 <= t2,
    ensures
        hits_by(first, t1) <= hits_by(first, t2),
    decreases first.len(),
{
    if first.len() > 0 {
        lemma_hits_by_monotone(first.drop_last(), t1, t2);
    }
}

/// The curve of a sweep is a distribution function: every rung has one attempt per seed, rung
/// `t` counts the seeds whose first hit came by `t`, and so the count never falls along the ladder.
pub proof fn lemma_sweep_is_a_cdf(seeds: Seq<u64>, ladder: Seq<u64>, first: Seq<Option<u64>>)
    requires
        ladder_ok(seeds, ladder),
        first.len() == seeds.len(),
    ensures
        forall|k: int|
            0 <= k < ladder.len() ==> count_runs(
                sweep_trials(seeds, ladder, first, ladder.len() as int),
                #[trigger] ladder[k],
            ) == seeds.len() && count_solved(
                sweep_trials(seeds, ladder, first, ladder.len() as int),
                ladder[k],
            ) == hits_by(first, ladder[k]),
        forall|k1: int, k2: int|
            0 <= k1 <= k2 < ladder.len() ==> count_solved(
                sweep_trials(seeds, ladder, first, ladder.len() as int),
                #[trigger] ladder[k1],
            ) <= count_solved(sweep_trials(seeds, ladder, first, ladder.len() as int), #[trigger] ladder[k2]),
{
    let l = ladder.len() as int;
    assert forall|k: int| 0 <= k < ladder.len() implies count_runs(
        sweep_trials(seeds, ladder, first, l),
        #[trigger] ladder[k],
    ) == seeds.len() && count_solved(sweep_trials(seeds, ladder, first, l), ladder[k]) == hits_by(
        first,
        ladder[k],
    ) by {
        lemma_sweep_counts(seeds, ladder, first, l, k);
    }
    assert forall|k1: int, k2: int| 0 <= k1 <= k2 < ladder.len() implies count_solved(
        sweep_trials(seeds, ladder, first, l),
        #[trigger] ladder[k1],
    ) <= count_solved(sweep_trials(seeds, ladder, first, l), #[trigger] ladder[k2]) by {
        lemma_sweep_counts(seeds, ladder, first, l, k1);
        lemma_sweep_counts(seeds, ladder, first, l, k2);
        if k1 < k2 {
            assert(ladder[k1] < ladder[k2]);
        }
        lemma_hits_by_monotone(first, ladder[k1], ladder[k2]);
    }
}

/// Two increasing lists of the same values are the same list.
proof fn lemma_increasing_unique(a: Seq<u64>, b: Seq<u64>)
    requires
        increasing(a),
        increasing(b),
        forall|x: u64| a.contains(x) <==> b.contains(x),
    ensures
        a == b,
    decreases a.len(),
{
    if a.len() > 0 && b.len() > 0 {
        // The smallest value of each is the smallest of the other.
        assert(b.contains(a[0]));
        assert(a.contains(b[0]));
        let p = choose|p: int| 0 <= p < b.len() && b[p] == a[0];
        let q = choose|q: int| 0 <= q < a.len() && a[q] == b[0];
        if p > 0 {
            assert(b[0] < b[p]);
            if q > 0 {
                assert(a[0] < a[q]);
            }
        }
        assert(a[0] == b[0]);
        let a1 = a.drop_first();
        let b1 = b.drop_first();
        assert forall|x: u64| a1.contains(x) <==> b1.contains(x) by {
            if a1.contains(x) {
                let i = choose|i: int| 0 <= i < a1.len() && a1[i] == x;
                assert(a[i + 1] == x);
                assert(b.contains(x));
                let j = choose|j: int| 0 <= j < b.len() && b[j] == x;
                assert(a[0] < a[i + 1]);
                assert(j != 0);
                assert(b1[j - 1] == x);
            }
            if b1.contains(x) {
                let j = choose|j: int| 0 <= j < b1.len() && b1[j] == x;
                assert(b[j + 1] == x);
                assert(a.contains(x));
                let i = choose|i: int| 0 <= i < a.len() && a[i] == x;
                assert(b[0] < b[j + 1]);
                assert(i != 0);
                assert(a1[i - 1] == x);
            }
        }
        lemma_increasing_unique(a1, b1);
        assert(a =~= seq![a[0]] + a1);
        assert(b =~= seq![b[0]] + b1);
    } else if a.len() > 0 {
        assert(b.contains(a[0]));
    } else if b.len() > 0 {
        assert(a.contains(b[0]));
    } else {
        assert(a =~= b);
    }
}

/// The trials of a sweep give back its ladder: its rungs are exactly the distinct run lengths
/// present, in order, so rebuilding a curve from them recovers the ladder and every count.
pub proof fn lemma_trials_recover_the_ladder(seeds: Seq<u64>, ladder: Seq<u64>, first: Seq<Option<u64>>)
    requires
        ladder_ok(seeds, ladder),
        first.len() == seeds.len(),
    ensures
        sorted_values(run_lengths(sweep_trials(seeds, ladder, first, ladder.len() as int)), ladder),
        forall|v: Seq<u64>|
            sorted_values(run_lengths(sweep_trials(seeds, ladder, first, ladder.len() as int)), v)
                ==> v == ladder,
{
    let l = ladder.len() as int;
    let tr = sweep_trials(seeds, ladder, first, l);
    lemma_sweep_runs_are_rungs(seeds, ladder, first, l);
    assert forall|x: u64| ladder.contains(x) <==> run_lengths(tr).contains(x) by {
        if run_lengths(tr).contains(x) {
            let q = choose|q: int| 0 <= q < run_lengths(tr).len() && run_lengths(tr)[q] == x;
            assert(ladder.contains(tr[q].run_length));
        }
        if ladder.contains(x) {
            let k = choose|k: int| 0 <= k < ladder.len() && ladder[k] == x;
            lemma_sweep_counts(seeds, ladder, first, l, k);
            lemma_count_runs_witness(tr, x);
            let q = choose|q: int| 0 <= q < tr.len() && tr[q].run_length == x;
            assert(run_lengths(tr)[q] == x);
        }
    }
    assert forall|v: Seq<u64>| sorted_values(run_lengths(tr), v) implies v == ladder by {
        lemma_increasing_unique(v, ladder);
    }
}

/// A positive count of run length `t` has a trial of that run length behind it.
proof fn lemma_count_runs_witness(trials: Seq<Trial>, t: u64)
    requires
        count_runs(trials, t) > 0,
    ensures
        exists|q: int| 0 <= q < trials.len() && trials[q].run_length == t,
    decreases trials.len(),
{
    if trials.last().run_length == t {
        assert(trials[trials.len() - 1].run_length == t);
    } else {
        lemma_count_runs_witness(trials.drop_last(), t);
        let q = choose|q: int| 0 <= q < trials.drop_last().len() && trials.drop_last()[q].run_length == t;
        assert(trials[q] == trials.drop_last()[q]);
    }
}


// ---------------------------------------------------------------------------------------------
// A sweep that re-runs every seed at every rung.
// ---------------------------------------------------------------------------------------------

/// What one attempt of a re-run sweep came back with.
#[derive(Clone, Copy, Debug, PartialEq, Eq)]
pub struct Attempt {
    /// Work the solver reports having spent.
    pub spent: u64,
    /// Whether it reached the target.
    pub solved: bool,
    /// Whether it came back below the target, which a target that is the optimum rules out.
    pub below: bool,
}

/// The attempts of each rung, as sequences.
pub open spec fn rows_of(runs: Seq<Vec<Attempt>>) -> Seq<Seq<Attempt>> {
    Seq::new(runs.len(), |k: int| runs[k]@)
}

/// The record of rung `k` of a re-run sweep, seeds in order.
pub open spec fn rerun_row(seeds: Seq<u64>, ladder: Seq<u64>, rows: Seq<Seq<Attempt>>, k: int) -> Seq<Trial> {
    Seq::new(
        seeds.len(),
        |i: int| Trial { seed: seeds[i], run_length: ladder[k], solved: rows[k][i].solved },
    )
}

/// The record of the first `k` rungs of a re-run sweep, rung by rung.
pub open spec fn rerun_record(seeds: Seq<u64>, ladder: Seq<u64>, rows: Seq<Seq<Attempt>>, k: int) -> Seq<Trial>
    decreases k,
{
    if k <= 0 {
        seq![]
    } else {
        rerun_record(seeds, ladder, rows, k - 1) + rerun_row(seeds, ladder, rows, k - 1)
    }
}

/// The attempts of the first `k` rungs, rung by rung.
pub open spec fn rerun_attempts(rows: Seq<Seq<Attempt>>, k: int) -> Seq<Attempt>
    decreases k,
{
    if k <= 0 {
        seq![]
    } else {
        rerun_attempts(rows, k - 1) + rows[k - 1]
    }
}

/// The work `attempts` report spending.
pub open spec fn spent_total(attempts: Seq<Attempt>) -> int
    decreases attempts.len(),
{
    if attempts.len() == 0 {
        0
    } else {
        spent_total(attempts.drop_last()) + attempts.last().spent as int
    }
}

/// How many of `attempts` came back below the target.
pub open spec fn below_count(attempts: Seq<Attempt>) -> nat
    decreases attempts.len(),
{
    if attempts.len() == 0 {
        0
    } else {
        below_count(attempts.drop_last()) + (if attempts.last().below {
            1nat
        } else {
            0nat
        })
    }
}

/// Whether `f` is seed `i`'s first solve among the first `k` rungs, quantized to the ladder:
/// `None` when no attempt of it solved there, else the rung of the earliest attempt that did.
pub open spec fn first_rung(ladder: Seq<u64>, rows: Seq<Seq<Attempt>>, k: int, i: int, f: Option<u64>) -> bool {
    match f {
        None => forall|p: int| 0 <= p < k ==> !(#[trigger] rows[p][i]).solved,
        Some(t) => exists|p: int|
            0 <= p < k && ladder[p] == t && (#[trigger] rows[p][i]).solved && forall|q: int|
                0 <= q < p ==> !(#[trigger] rows[q][i]).solved,
    }
}

/// At most as many attempts came back below the target as there are attempts.
proof fn lemma_below_count_bounded(attempts: Seq<Attempt>)
    ensures
        below_count(attempts) <= attempts.len(),
    decreases attempts.len(),
{
    if attempts.len() > 0 {
        lemma_below_count_bounded(attempts.drop_last());
    }
}

/// Every attempt of the record ran for one of the first `k` rungs, and the record has one
/// attempt per seed per rung.
proof fn lemma_rerun_record_runs(seeds: Seq<u64>, ladder: Seq<u64>, rows: Seq<Seq<Attempt>>, k: int)
    requires
        0 <= k <= ladder.len(),
    ensures
        rerun_record(seeds, ladder, rows, k).len() == k * seeds.len(),
        forall|q: int|
            0 <= q < rerun_record(seeds, ladder, rows, k).len() ==> ladder.contains(
                #[trigger] rerun_record(seeds, ladder, rows, k)[q].run_length,
            ),
    decreases k,
{
    if k > 0 {
        lemma_rerun_record_runs(seeds, ladder, rows, k - 1);
        let a = rerun_record(seeds, ladder, rows, k - 1);
        let b = rerun_row(seeds, ladder, rows, k - 1);
        assert(k * seeds.len() == (k - 1) * seeds.len() + seeds.len()) by (nonlinear_arith);
        assert forall|q: int| 0 <= q < (a + b).len() implies ladder.contains(#[trigger] (a + b)[q].run_length) by {
            if q < a.len() {
                assert((a + b)[q] == a[q]);
            } else {
                assert((a + b)[q] == b[q - a.len()]);
                assert(ladder[k - 1] == b[q - a.len()].run_length);
            }
        }
    } else {
        assert(k * seeds.len() == 0) by (nonlinear_arith)
            requires
                k == 0,
        ;
    }
}

impl Rld {
    /// The curve of a sweep that re-ran every seed at every rung: `runs[k][i]` is what seed `i`
    /// came back with at rung `k`. Trials are rung by rung, seeds in order within a rung; each
    /// seed's first solve is quantized to the ladder, the earliest rung at which its attempt
    /// solved; the work is what the attempts report, saturating; and every attempt below the
    /// target is counted as impossible.
    pub fn from_reruns(solver: &str, seeds: &[u64], ladder: &[u64], runs: &[Vec<Attempt>]) -> (r: Rld)
        requires
            ladder_ok(seeds@, ladder@),
            runs@.len() == ladder@.len(),
            forall|k: int| 0 <= k < runs@.len() ==> (#[trigger] runs@[k])@.len() == seeds@.len(),
            ladder@.len() * seeds@.len() <= usize::MAX,
        ensures
            r.solver@ == solver@,
            r.seeds@ == seeds@,
            r.ladder@ == ladder@,
            r.trials@ == rerun_record(seeds@, ladder@, rows_of(runs@), ladder@.len() as int),
            r.solved@.len() == ladder@.len(),
            r.attempts@.len() == ladder@.len(),
            forall|k: int|
                0 <= k < ladder@.len() ==> #[trigger] r.solved@[k] == count_solved(r.trials@, ladder@[k]),
            forall|k: int|
                0 <= k < ladder@.len() ==> #[trigger] r.attempts@[k] == count_runs(r.trials@, ladder@[k]),
            r.first_solved_at@.len() == seeds@.len(),
            forall|i: int|
                0 <= i < seeds@.len() ==> first_rung(
                    ladder@,
                    rows_of(runs@),
                    ladder@.len() as int,
                    i,
                    #[trigger] r.first_solved_at@[i],
                ),
            r.steps_used == saturated(spent_total(rerun_attempts(rows_of(runs@), ladder@.len() as int))),
            r.impossible == below_count(rerun_attempts(rows_of(runs@), ladder@.len() as int)),
    {
        let ghost rows = rows_of(runs@);
        let n = seeds.len();
        let mut first: Vec<Option<u64>> = Vec::new();
        let mut i: usize = 0;
        while i < n
            invariant
                n == seeds@.len(),
                i <= n,
                first@.len() == i,
                forall|p: int| 0 <= p < i ==> first@[p] is None,
            decreases n - i,
        {
            first.push(None);
            i += 1;
        }
        let mut trials: Vec<Trial> = Vec::new();
        let mut steps_used: u64 = 0;
        let mut impossible: usize = 0;
        let mut k: usize = 0;
        while k < ladder.len()
            invariant
                ladder_ok(seeds@, ladder@),
                runs@.len() == ladder@.len(),
                forall|j: int| 0 <= j < runs@.len() ==> (#[trigger] runs@[j])@.len() == seeds@.len(),
                ladder@.len() * seeds@.len() <= usize::MAX,
                rows == rows_of(runs@),
                n == seeds@.len(),
                k <= ladder@.len(),
                trials@ == rerun_record(seeds@, ladder@, rows, k as int),
                first@.len() == n,
                forall|p: int| 0 <= p < n ==> first_rung(ladder@, rows, k as int, p, #[trigger] first@[p]),
                steps_used == saturated(spent_total(rerun_attempts(rows, k as int))),
                impossible == below_count(rerun_attempts(rows, k as int)),
                rerun_attempts(rows, k as int).len() == k * n,
            decreases ladder@.len() - k,
        {
            let t = ladder[k];
            let ghost start = trials@;
            let ghost done = rerun_attempts(rows, k as int);
            let ghost first0 = first@;
            assert(rows[k as int] == runs@[k as int]@);
            assert(k * n + n <= ladder@.len() * n) by (nonlinear_arith)
                requires
                    k < ladder@.len(),
            ;
            let mut i: usize = 0;
            while i < n
                invariant
                    ladder_ok(seeds@, ladder@),
                    n == seeds@.len(),
                    k < ladder@.len(),
                    runs@.len() == ladder@.len(),
                    t == ladder@[k as int],
                    runs@[k as int]@.len() == n,
                    rows[k as int] == runs@[k as int]@,
                    ladder@.len() * n <= usize::MAX,
                    k * n + n <= ladder@.len() * n,
                    i <= n,
                    start == rerun_record(seeds@, ladder@, rows, k as int),
                    trials@ == start + rerun_row(seeds@, ladder@, rows, k as int).take(i as int),
                    done.len() == k * n,
                    steps_used == saturated(spent_total(done + rows[k as int].take(i as int))),
                    impossible == below_count(done + rows[k as int].take(i as int)),
                    first@.len() == n,
                    forall|p: int| 0 <= p < n ==> first_rung(ladder@, rows, k as int, p, #[trigger] first0[p]),
                    forall|p: int| 0 <= p < i ==> first_rung(ladder@, rows, k + 1, p, #[trigger] first@[p]),
                    forall|p: int| i <= p < n ==> #[trigger] first@[p] == first0[p],
                decreases n - i,
            {
                let a = runs[k][i];
                let ghost seen = done + rows[k as int].take(i as int);
                proof {
                    assert(rows[k as int][i as int] == a);
                    assert(done + rows[k as int].take(i + 1) =~= seen.push(a));
                    assert(seen.push(a).drop_last() =~= seen);
                    lemma_below_count_bounded(seen);
                }
                steps_used = steps_used.saturating_add(a.spent);
                if a.below {
                    impossible += 1;
                }
                let f = first[i];
                if a.solved {
                    let better = match f {
                        None => true,
                        Some(had) => t < had,
                    };
                    if better {
                        first.set(i, Some(t));
                    }
                }
                proof {
                    let p = i as int;
                    assert(first_rung(ladder@, rows, k as int, p, first0[p]));
                    match first0[p] {
                        None => {
                            assert forall|q: int| 0 <= q < k ==> !(#[trigger] rows[q][p]).solved by {
                            }
                            if a.solved {
                                assert(first@[p] == Some(t));
                                assert(rows[k as int][p].solved);
                            }
                        },
                        Some(had) => {
                            let w = choose|w: int|
                                0 <= w < k && ladder@[w] == had && (#[trigger] rows[w][p]).solved
                                    && forall|q: int| 0 <= q < w ==> !(#[trigger] rows[q][p]).solved;
                            assert(ladder@[w] < ladder@[k as int]);
                            assert(first@[p] == first0[p]);
                        },
                    }
                    assert(first_rung(ladder@, rows, k + 1, p, first@[p]));
                    let row = rerun_row(seeds@, ladder@, rows, k as int);
                    assert(row.take(i + 1) =~= row.take(i as int).push(row[i as int]));
                }
                trials.push(Trial { seed: seeds[i], run_length: t, solved: a.solved });
                i += 1;
            }
            proof {
                let row = rerun_row(seeds@, ladder@, rows, k as int);
                assert(row.take(n as int) =~= row);
                assert(rows[k as int].take(n as int) =~= rows[k as int]);
                assert(rerun_attempts(rows, k + 1) == done + rows[k as int]);
                assert((k + 1) * n == k * n + n) by (nonlinear_arith);
                assert(rerun_record(seeds@, ladder@, rows, k + 1) == start + row);
            }
            k += 1;
        }
        proof {
            lemma_rerun_record_runs(seeds@, ladder@, rows, ladder@.len() as int);
        }
        let (solved, attempts) = tally(ladder, trials.as_slice());
        Rld {
            solver: solver.to_owned(),
            seeds: copy_values(seeds),
            ladder: copy_values(ladder),
            trials,
            solved,
            attempts,
            first_solved_at: first,
            steps_used,
            impossible,
        }
    }
}

/// How many seeds first solved at a run length of at most `v`.
pub open spec fn solved_within(first: Seq<Option<u64>>, v: int) -> nat
    decreases first.len(),
{
    if first.len() == 0 {
        0
    } else {
        solved_within(first.drop_last(), v) + (if first.last() matches Some(x) && x <= v {
            1nat
        } else {
            0nat
        })
    }
}

/// With every first solve above `v`, none is counted.
proof fn lemma_solved_within_none(first: Seq<Option<u64>>, v: int)
    requires
        forall|i: int| 0 <= i < first.len() ==> (#[trigger] first[i] matches Some(x) ==> x > v),
    ensures
        solved_within(first, v) == 0,
    decreases first.len(),
{
    if first.len() > 0 {
        lemma_solved_within_none(first.drop_last(), v);
    }
}

/// Counting up to two bounds that no first solve lies between gives the same count.
proof fn lemma_solved_within_gap(first: Seq<Option<u64>>, a: int, b: int)
    requires
        forall|i: int| 0 <= i < first.len() ==> (#[trigger] first[i] matches Some(x) ==> (x <= a <==> x <= b)),
    ensures
        solved_within(first, a) == solved_within(first, b),
    decreases first.len(),
{
    if first.len() > 0 {
        lemma_solved_within_gap(first.drop_last(), a, b);
    }
}

/// A larger bound counts at least as many seeds, and a first solve at exactly `b` counts one more
/// than the bound just below it.
proof fn lemma_solved_within_step(first: Seq<Option<u64>>, a: int, b: int)
    requires
        a <= b,
    ensures
        solved_within(first, a) <= solved_within(first, b),
        solved_within(first, b) <= first.len(),
        (exists|i: int| 0 <= i < first.len() && first[i] == Some(b as u64) && 0 <= b <= u64::MAX) && a < b
            ==> solved_within(first, a) < solved_within(first, b),
    decreases first.len(),
{
    if first.len() > 0 {
        lemma_solved_within_step(first.drop_last(), a, b);
        if (exists|i: int| 0 <= i < first.len() && first[i] == Some(b as u64) && 0 <= b <= u64::MAX) && a < b {
            let i = choose|i: int| 0 <= i < first.len() && first[i] == Some(b as u64) && 0 <= b <= u64::MAX;
            if i < first.len() - 1 {
                assert(first.drop_last()[i] == Some(b as u64));
            }
        }
    }
}

impl Rld {
    /// The run length by which at least `rank` seeds (at least one) had first solved: the
    /// `rank`-th smallest first solve. `None` when fewer seeds than that ever solved.
    pub fn solved_rank(&self, rank: usize) -> (v: Option<u64>)
        ensures
            v is Some <==> solved_within(self.first_solved_at@, u64::MAX as int) >= (if rank >= 1 { rank } else { 1 }),
            v matches Some(x) ==> solved_within(self.first_solved_at@, x - 1) < (if rank >= 1 { rank } else { 1 })
                <= solved_within(self.first_solved_at@, x as int),
    {
        let first = &self.first_solved_at;
        let r: usize = if rank >= 1 { rank } else { 1 };
        let total = solved_up_to(first, u64::MAX);
        if total < r {
            return None;
        }
        let mut v = match least_above(first, None) {
            Some(v) => v,
            None => {
                proof {
                    lemma_solved_within_none(first@, u64::MAX as int);
                }
                return None;
            },
        };
        proof {
            lemma_solved_within_none(first@, v - 1);
        }
        loop
            invariant
                first@ == self.first_solved_at@,
                r == (if rank >= 1 { rank } else { 1 }),
                r >= 1,
                solved_within(first@, u64::MAX as int) >= r,
                solved_within(first@, v - 1) < r,
                exists|i: int| 0 <= i < first@.len() && first@[i] == Some(v),
            decreases solved_within(first@, u64::MAX as int) - solved_within(first@, v as int),
        {
            proof {
                lemma_solved_within_step(first@, v as int, u64::MAX as int);
            }
            let c = solved_up_to(first, v);
            if c >= r {
                return Some(v);
            }
            let w = match least_above(first, Some(v)) {
                Some(w) => w,
                None => {
                    proof {
                        lemma_solved_within_gap(first@, v as int, u64::MAX as int);
                    }
                    return None;
                },
            };
            proof {
                lemma_solved_within_gap(first@, w - 1, v as int);
                lemma_solved_within_step(first@, v as int, w as int);
                lemma_solved_within_step(first@, w as int, u64::MAX as int);
            }
            v = w;
        }
    }
}

/// How many seeds first solved at a run length of at most `v`.
fn solved_up_to(first: &Vec<Option<u64>>, v: u64) -> (c: usize)
    ensures
        c == solved_within(first@, v as int),
{
    let mut c: usize = 0;
    let mut i: usize = 0;
    while i < first.len()
        invariant
            i <= first@.len(),
            c == solved_within(first@.subrange(0, i as int), v as int),
            c <= i,
        decreases first@.len() - i,
    {
        proof {
            assert(first@.subrange(0, i as int + 1).drop_last() =~= first@.subrange(0, i as int));
        }
        match first[i] {
            Some(x) => {
                if x <= v {
                    c += 1;
                }
            },
            None => {},
        }
        i += 1;
    }
    assert(first@.subrange(0, first@.len() as int) =~= first@);
    c
}

/// The smallest first solve above `floor` (any, when there is no floor).
fn least_above(first: &Vec<Option<u64>>, floor: Option<u64>) -> (w: Option<u64>)
    ensures
        w is None ==> forall|i: int|
            0 <= i < first@.len() ==> (#[trigger] first@[i] matches Some(x) ==> (floor matches Some(f) && x <= f)),
        w matches Some(y) ==> (floor matches Some(f) ==> y > f) && (exists|i: int|
            0 <= i < first@.len() && first@[i] == Some(y)) && forall|i: int|
            0 <= i < first@.len() ==> (#[trigger] first@[i] matches Some(x) ==> (floor matches Some(f) && x <= f) || y <= x),
{
    let mut best: Option<u64> = None;
    let mut i: usize = 0;
    while i < first.len()
        invariant
            i <= first@.len(),
            best is None ==> forall|t: int|
                0 <= t < i ==> (#[trigger] first@[t] matches Some(x) ==> (floor matches Some(f) && x <= f)),
            best matches Some(y) ==> (floor matches Some(f) ==> y > f) && (exists|t: int|
                0 <= t < i && first@[t] == Some(y)) && forall|t: int|
                0 <= t < i ==> (#[trigger] first@[t] matches Some(x) ==> (floor matches Some(f) && x <= f) || y <= x),
        decreases first@.len() - i,
    {
        if let Some(x) = first[i] {
            let above = match floor {
                Some(f) => x > f,
                None => true,
            };
            if above {
                let better = match best {
                    Some(y) => x < y,
                    None => true,
                };
                if better {
                    best = Some(x);
                    assert(first@[i as int] == Some(x));
                }
            }
        }
        i += 1;
    }
    best
}

/// `s` with each run of equal neighbours kept once.
pub open spec fn dedup_spec(s: Seq<u64>) -> Seq<u64>
    decreases s.len(),
{
    if s.len() <= 1 {
        s
    } else {
        let d = dedup_spec(s.drop_last());
        if s.last() == s[s.len() - 2] {
            d
        } else {
            d.push(s.last())
        }
    }
}

/// Deduplication drops only repeats: every value of `s` survives, no value appears that was not
/// in `s`, no two neighbours of the result are equal, the ends stay where they were, and the
/// survivors keep their order (each kept entry is a run's first, and between two kept entries
/// lies exactly one run of `s`).
pub proof fn lemma_dedup_drops_only_repeats(s: Seq<u64>)
    ensures
        forall|x: u64| dedup_spec(s).contains(x) <==> s.contains(x),
        forall|j: int| #![trigger dedup_spec(s)[j]] 0 <= j < dedup_spec(s).len() - 1 ==> dedup_spec(s)[j] != dedup_spec(s)[j + 1],
        dedup_spec(s).len() <= s.len(),
        s.len() > 0 ==> dedup_spec(s).len() > 0 && dedup_spec(s)[0] == s[0] && dedup_spec(s).last() == s.last(),
        forall|j: int| #![trigger s[j]] 0 <= j < s.len() - 1 && s[j] != s[j + 1] ==> dedup_spec(s).len() >= 2,
    decreases s.len(),
{
    if s.len() >= 2 {
        let t = s.drop_last();
        lemma_dedup_drops_only_repeats(t);
        let d = dedup_spec(t);
        assert(dedup_spec(s) == (if s.last() == s[s.len() - 2] { d } else { d.push(s.last()) }));
        assert forall|x: u64| dedup_spec(s).contains(x) <==> s.contains(x) by {
            if s.contains(x) {
                let q = choose|q: int| 0 <= q < s.len() && s[q] == x;
                if q < s.len() - 1 {
                    assert(t[q] == x);
                    assert(t.contains(x));
                    assert(d.contains(x));
                    let r = choose|r: int| 0 <= r < d.len() && d[r] == x;
                    if s.last() != s[s.len() - 2] {
                        assert(d.push(s.last())[r] == x);
                    }
                } else {
                    if s.last() == s[s.len() - 2] {
                        assert(t[t.len() - 1] == x);
                        assert(t.contains(x));
                    } else {
                        assert(d.push(s.last())[d.len() as int] == x);
                    }
                }
            }
            if dedup_spec(s).contains(x) {
                let r = choose|r: int| 0 <= r < dedup_spec(s).len() && dedup_spec(s)[r] == x;
                if s.last() == s[s.len() - 2] || r < d.len() {
                    assert(d[r] == x);
                    assert(d.contains(x));
                    assert(t.contains(x));
                    let q = choose|q: int| 0 <= q < t.len() && t[q] == x;
                    assert(s[q] == x);
                } else {
                    assert(s[s.len() - 1] == x);
                }
            }
        }
        assert(d.last() == t.last());
        assert(t.last() == s[s.len() - 2]);
        assert forall|j: int| #![trigger s[j]] 0 <= j < s.len() - 1 && s[j] != s[j + 1] implies dedup_spec(s).len() >= 2 by {
            if j < s.len() - 2 {
                assert(t[j] == s[j] && t[j + 1] == s[j + 1]);
                assert(d.len() >= 2);
            }
        }
    }
}

/// Whether `s` never decreases.
pub open spec fn nondecreasing(s: Seq<u64>) -> bool {
    forall|p: int, q: int| 0 <= p <= q < s.len() ==> s[p] <= s[q]
}

/// A ladder's rungs from raw values: the first set to `min`, the last to `max`, and each run of
/// equal neighbours kept once. Raw values that never decrease between those ends give a ladder
/// that is strictly increasing from `min` to `max`.
pub fn rungs_between(raw: Vec<u64>, min: u64, max: u64) -> (out: Vec<u64>)
    requires
        raw@.len() >= 1,
    ensures
        out@ == dedup_spec(raw@.update(0, min).update(raw@.len() - 1, max)),
        forall|x: u64| out@.contains(x) <==> raw@.update(0, min).update(raw@.len() - 1, max).contains(x),
        forall|j: int| #![trigger out@[j]] 0 <= j < out@.len() - 1 ==> out@[j] != out@[j + 1],
        raw@.len() >= 2 && nondecreasing(raw@.update(0, min).update(raw@.len() - 1, max)) ==> increasing(out@)
            && out@[0] == min && out@.last() == max,
{
    let mut s = raw;
    s.set(0, min);
    let last = s.len() - 1;
    s.set(last, max);
    let ghost v = s@;
    let mut out: Vec<u64> = Vec::new();
    out.push(s[0]);
    proof {
        assert(v.take(1) =~= seq![v[0]]);
        assert(out@ =~= dedup_spec(v.take(1)));
    }
    let mut i: usize = 1;
    while i < s.len()
        invariant
            v == s@,
            1 <= i <= s@.len(),
            out@ == dedup_spec(v.take(i as int)),
            out@.len() >= 1,
            out@.last() == v[i - 1],
            out@[0] == v[0],
            nondecreasing(v) ==> increasing(out@),
        decreases s@.len() - i,
    {
        proof {
            let t = v.take(i as int + 1);
            assert(t.drop_last() =~= v.take(i as int));
            assert(t.last() == v[i as int] && t[t.len() - 2] == v[i - 1]);
        }
        if s[i] != s[i - 1] {
            let ghost before = out@;
            out.push(s[i]);
            proof {
                if nondecreasing(v) {
                    assert(v[i - 1] <= v[i as int]);
                    assert forall|p: int, q: int| 0 <= p < q < out@.len() implies out@[p] < out@[q] by {
                        if q < before.len() {
                            assert(out@[p] == before[p] && out@[q] == before[q]);
                        } else if p < before.len() - 1 {
                            assert(before[p] < before[before.len() - 1]);
                        }
                    }
                }
            }
        }
        i += 1;
    }
    proof {
        assert(v.take(v.len() as int) =~= v);
        assert(v =~= raw@.update(0, min).update(raw@.len() - 1, max));
        lemma_dedup_drops_only_repeats(v);
    }
    out
}

/// The first rung from index `k` on that is at least `h`, if any.
pub open spec fn rung_from(ladder: Seq<u64>, h: u64, k: int) -> Option<u64>
    decreases ladder.len() - k,
{
    if k < 0 || k >= ladder.len() {
        None
    } else if ladder[k] >= h {
        Some(ladder[k])
    } else {
        rung_from(ladder, h, k + 1)
    }
}

/// A first hit rounded up to the ladder: the shortest rung at or past it; `None` for no hit or a
/// hit past the last rung.
pub open spec fn rounded_up(ladder: Seq<u64>, h: Option<u64>) -> Option<u64> {
    match h {
        Some(x) => rung_from(ladder, x, 0),
        None => None,
    }
}

/// What `rung_from` finds: a rung at or past `h` with every earlier rung from `k` below it, or
/// nothing at or past `h` from `k` on.
proof fn lemma_rung_from(ladder: Seq<u64>, h: u64, k: int)
    requires
        0 <= k <= ladder.len(),
    ensures
        match rung_from(ladder, h, k) {
            Some(t) => exists|p: int|
                k <= p < ladder.len() && ladder[p] == t && t >= h && forall|q: int| k <= q < p ==> ladder[q] < h,
            None => forall|q: int| k <= q < ladder.len() ==> ladder[q] < h,
        },
    decreases ladder.len() - k,
{
    if k < ladder.len() && ladder[k] < h {
        lemma_rung_from(ladder, h, k + 1);
    }
}

/// Every trial of a sweep is some seed's attempt at some rung.
proof fn lemma_sweep_decompose(seeds: Seq<u64>, ladder: Seq<u64>, first: Seq<Option<u64>>, kk: int, q: int)
    requires
        0 <= kk <= ladder.len(),
        0 <= q < sweep_trials(seeds, ladder, first, kk).len(),
    ensures
        exists|k: int, j: int|
            0 <= k < kk && 0 <= j < seeds.len() && sweep_trials(seeds, ladder, first, kk)[q] == #[trigger] rung_trials(
                seeds,
                ladder,
                first,
                k,
            )[j],
    decreases kk,
{
    let prev = sweep_trials(seeds, ladder, first, kk - 1);
    if q < prev.len() {
        lemma_sweep_decompose(seeds, ladder, first, kk - 1, q);
        let (k, j) = choose|k: int, j: int|
            0 <= k < kk - 1 && 0 <= j < seeds.len() && prev[q] == #[trigger] rung_trials(seeds, ladder, first, k)[j];
        assert(sweep_trials(seeds, ladder, first, kk)[q] == prev[q]);
    } else {
        let j = q - prev.len();
        assert(sweep_trials(seeds, ladder, first, kk)[q] == rung_trials(seeds, ladder, first, kk - 1)[j]);
    }
}

/// Every seed's attempt at every rung is a trial of the sweep.
proof fn lemma_sweep_compose(seeds: Seq<u64>, ladder: Seq<u64>, first: Seq<Option<u64>>, kk: int, k: int, j: int)
    requires
        0 <= k < kk <= ladder.len(),
        0 <= j < seeds.len(),
    ensures
        exists|q: int|
            0 <= q < sweep_trials(seeds, ladder, first, kk).len() && #[trigger] sweep_trials(seeds, ladder, first, kk)[q]
                == rung_trials(seeds, ladder, first, k)[j],
    decreases kk,
{
    let prev = sweep_trials(seeds, ladder, first, kk - 1);
    let tr = sweep_trials(seeds, ladder, first, kk);
    if k < kk - 1 {
        lemma_sweep_compose(seeds, ladder, first, kk - 1, k, j);
        let q = choose|q: int| 0 <= q < prev.len() && #[trigger] prev[q] == rung_trials(seeds, ladder, first, k)[j];
        assert(tr[q] == prev[q]);
    } else {
        let q = prev.len() + j;
        assert(tr[q] == rung_trials(seeds, ladder, first, k)[j]);
    }
}

/// A seed's first solve, read back from the trials of a sweep, is its first hit rounded up to the
/// next rung: never down, and nothing for a hit past the last rung.
pub proof fn lemma_trials_round_first_hits_up(seeds: Seq<u64>, ladder: Seq<u64>, first: Seq<Option<u64>>, i: int)
    requires
        ladder_ok(seeds, ladder),
        first.len() == seeds.len(),
        seeds.no_duplicates(),
        0 <= i < seeds.len(),
    ensures
        first_solve(sweep_trials(seeds, ladder, first, ladder.len() as int), seeds[i], rounded_up(ladder, first[i])),
{
    let l = ladder.len() as int;
    let tr = sweep_trials(seeds, ladder, first, l);
    let s = seeds[i];
    // Each trial of seed `s` is its attempt at some rung `k`, solved exactly when its hit came by it.
    assert forall|q: int| 0 <= q < tr.len() && #[trigger] tr[q].seed == s implies exists|k: int|
        0 <= k < l && tr[q].run_length == ladder[k] && tr[q].solved == hit_by(first[i], ladder[k]) by {
        lemma_sweep_decompose(seeds, ladder, first, l, q);
        let (k, j) = choose|k: int, j: int|
            0 <= k < l && 0 <= j < seeds.len() && tr[q] == #[trigger] rung_trials(seeds, ladder, first, k)[j];
        assert(seeds[j] == s);
        assert(j == i);
    }
    match first[i] {
        None => {
            assert forall|q: int| 0 <= q < tr.len() && #[trigger] tr[q].seed == s implies !tr[q].solved by {
                let k = choose|k: int|
                    0 <= k < l && tr[q].run_length == ladder[k] && tr[q].solved == hit_by(first[i], ladder[k]);
            }
        },
        Some(h) => {
            lemma_rung_from(ladder, h, 0);
            match rung_from(ladder, h, 0) {
                None => {
                    assert forall|q: int| 0 <= q < tr.len() && #[trigger] tr[q].seed == s implies !tr[q].solved by {
                        let k = choose|k: int|
                            0 <= k < l && tr[q].run_length == ladder[k] && tr[q].solved == hit_by(first[i], ladder[k]);
                        assert(ladder[k] < h);
                    }
                },
                Some(t) => {
                    let p = choose|p: int|
                        0 <= p < ladder.len() && ladder[p] == t && t >= h && forall|q: int| 0 <= q < p ==> ladder[q] < h;
                    lemma_sweep_compose(seeds, ladder, first, l, p, i);
                    let q0 = choose|q: int|
                        0 <= q < tr.len() && #[trigger] tr[q] == rung_trials(seeds, ladder, first, p)[i];
                    assert(tr[q0].seed == s && tr[q0].solved && tr[q0].run_length == t);
                    assert forall|q: int| 0 <= q < tr.len() && #[trigger] tr[q].seed == s && tr[q].solved implies t
                        <= tr[q].run_length by {
                        let k = choose|k: int|
                            0 <= k < l && tr[q].run_length == ladder[k] && tr[q].solved == hit_by(first[i], ladder[k]);
                        if k < p {
                            assert(ladder[k] < h);
                        } else if k > p {
                            assert(ladder[p] < ladder[k]);
                        }
                    }
                },
            }
        },
    }
}

/// A seed has one first solve in a set of trials.
pub proof fn lemma_first_solve_unique(trials: Seq<Trial>, seed: u64, a: Option<u64>, b: Option<u64>)
    requires
        first_solve(trials, seed, a),
        first_solve(trials, seed, b),
    ensures
        a == b,
{
    match (a, b) {
        (Some(x), Some(y)) => {
            let q = choose|q: int|
                0 <= q < trials.len() && #[trigger] trials[q].seed == seed && trials[q].solved && trials[q].run_length == x;
            let r = choose|q: int|
                0 <= q < trials.len() && #[trigger] trials[q].seed == seed && trials[q].solved && trials[q].run_length == y;
        },
        (Some(x), None) => {
            let q = choose|q: int|
                0 <= q < trials.len() && #[trigger] trials[q].seed == seed && trials[q].solved && trials[q].run_length == x;
        },
        (None, Some(y)) => {
            let r = choose|q: int|
                0 <= q < trials.len() && #[trigger] trials[q].seed == seed && trials[q].solved && trials[q].run_length == y;
        },
        (None, None) => {},
    }
}

} // verus!
