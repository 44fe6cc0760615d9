# ferrotherm

The integer core of an Ising-model toolkit, with its behaviour stated as Verus contracts and
proved.

- `src/` is the verified library: the model's compressed rows and its digest, the receipt text
  format and its round trip, restart schedules, run-length distributions, region graphs and their
  counting numbers, the message schedule of generalized belief propagation, the level-2 moment
  basis and objective, Sourlas codes, sparsification's copy layout, path-relinking distances,
  reachability and minimum cuts in the residual network behind roof duality, partial labellings
  and the random stream. Real-valued weights are carried as IEEE-754 bit patterns.
- `app/` is the floating-point side built on it: energies, probabilities, belief propagation's
  messages, free energies, bifurcation dynamics, the max-flow of roof duality and the receipt's
  numbers.
- `tests/` exercises the library on concrete values.

Verus checks every function of `src/` against its contract.

Not included, because each needs a component this crate does not have (exact variable
elimination, Gibbs and kernel samplers, dense linear algebra and bound certificates, the
lattice and planted-instance builders, the program and fabric compilers, the cost ledger,
autocovariances by FFT and the error function):

- the semidefinite and level-2 sum-of-squares certificates (`certified`, `lanczos_min`, `extract`),
  the quantum annealer (`run_metered`), higher-order reduction (`to_pairwise` and its errors),
  image restoration, the R-hat diagnostics, sample sets and their estimators, scatter search
  (`search`, `Params`, `Outcome`), `measure_planted`, the Gumbel-softmax draw, the roof-dual
  `as_bound` view, and the instance-scaled annealing schedule with its `NoScale` refusal.
