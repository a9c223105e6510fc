# bobyqa

Minimization of a function from its values alone, subject to bounds on the variables, by
Powell's BOBYQA (bound optimization by quadratic approximation).

The library in `src/` is verified with Verus. Every number is a binary64 number held by its
bits, and every operation on it is proved to be correctly rounded (`src/float.rs`), so the
whole method is covered by exact contracts, rounding errors included:

- `src/float/`: rounding, arithmetic, order and conversions of binary64 numbers.
- `src/vector.rs`, `src/mat.rs`, `src/linalg.rs`: vectors and matrices.
- `src/util.rs`, `src/util/interval.rs`: moderated evaluation, exit tests, points between
  bounds, and the search on an interval with where it looks.
- `src/powalg.rs`: Lagrange values and denominators of the interpolation set.
- `src/trustregion.rs`: the trust-region subproblem inside bounds.
- `src/geometry.rs`: the point to drop, and steps that improve the geometry of the set;
  `src/geometry/length.rs`: how far those steps lead.
- `src/update.rs`: updates of the inverse interpolation matrix and of the model.
- `src/initialize.rs`: the initial set and its model.
- `src/rescue.rs`: the rescue of a set that rounding errors have damaged.
- `src/bobyqb.rs` and `src/bobyqb/`: the iterations. `course.rs` says what a run is, as a
  function of the answers of the objective; `start.rs` and `iterate.rs` run it; `laws.rs`,
  `span.rs`, `drift.rs`, `best.rs` and `site.rs` prove what holds of every run; `kernels.rs`
  says what a run costs.
- `src/lib.rs`, `src/status.rs`: the solver, its configuration and its outcomes.
- `src/laws.rs`: what holds of every minimization: the bounds are honoured, the outcome is
  determined by the arguments and the objective, the status means what it says, and the value
  is the least one that was found (in a run of up to `LONG_RUN` evaluations).

An objective need be defined at the finite points between the bounds only. The contracts ask
for no more, so that a call anywhere else, or one where the arguments are rejected, would not
verify.

`app/` offers the solver for machine floating-point numbers, with the conversions and the
formatting that go with them.

A solver is built once per problem size and can be used any number of times:

```rust
let mut solver = Bobyqa::new(2, Config::new(2))?;
let outcome = solver.minimize(objective, &mut x, &lower, &upper);
```
