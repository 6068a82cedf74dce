//! Threshold accepting: accept the first neighbor that is below the current value plus a
//! threshold, shrink the threshold after every accepted step that is not an improvement, and
//! return the best solution seen.
use crate::base_value::{BaseValue, FLOAT_UNIT};
use crate::clock::{limit_passed, now};
use crate::coefficient::{lemma_shrinking_scale_defined, scaled, Coefficient};
use crate::local_improver::{first_below, first_below_outcome};
use crate::neighborhood::Neighborhood;
use crate::local_improver::pair_of;
use crate::objective::{clones_faithfully, EvaluatedSolution, Objective};
use crate::solver::best_state;
use crate::objective_value::{addable, lex_lt, lex_sum, ObjectiveValue};
use crate::solver::{step_cap, FunctionBetweenSteps, Silent, Solver};
use std::sync::Arc;
use vstd::prelude::*;

verus! {

/// A factor between zero and one, in millionths.
pub type ScalingFactor = i64;

/// The threshold accepting solver: each step takes the first neighbor whose objective value is
/// below the current value plus the current threshold; after a step that is not a strict
/// improvement the threshold is multiplied by `threshold_factor`. It keeps the best solution
/// seen and stops when a whole neighborhood is scanned without acceptance, or when the time or
/// iteration limit is reached.
#[verifier::reject_recursive_types(S)]
#[verifier::reject_recursive_types(N)]
pub struct ThresholdAcceptingSolver<S, N: Neighborhood<S> + ?Sized, F: FunctionBetweenSteps<S>> {
    neighborhood: Arc<N>,
    objective: Arc<Objective<S>>,
    initial_threshold: ObjectiveValue,
    threshold_factor: ScalingFactor,
    function_between_steps: F,
    time_limit: Option<std::time::Duration>,
    iteration_limit: Option<u32>,
}

impl<S, N: Neighborhood<S> + ?Sized> ThresholdAcceptingSolver<S, N, Silent> {
    /// A threshold accepting solver without limits and without reporting.
    pub fn initialize(
        neighborhood: Arc<N>,
        objective: Arc<Objective<S>>,
        initial_threshold: ObjectiveValue,
        threshold_factor: ScalingFactor,
    ) -> (r: Self)
        requires
            0 <= threshold_factor <= FLOAT_UNIT,
        ensures
            r.wf(),
            r.spec_neighborhood() == &*neighborhood,
            r.spec_objective() == &*objective,
            r.spec_iteration_limit() is None,
    {
        ThresholdAcceptingSolver::with_options(
            neighborhood,
            objective,
            initial_threshold,
            threshold_factor,
            Silent,
            None,
            None,
        )
    }
}

impl<S, N: Neighborhood<S> + ?Sized, F: FunctionBetweenSteps<S>> ThresholdAcceptingSolver<S, N, F> {
    /// The neighborhood.
    pub closed spec fn spec_neighborhood(&self) -> &N {
        &*self.neighborhood
    }

    /// The objective.
    pub closed spec fn spec_objective(&self) -> &Objective<S> {
        &*self.objective
    }

    /// The iteration limit.
    pub closed spec fn spec_iteration_limit(&self) -> Option<u32> {
        self.iteration_limit
    }

    /// The initial threshold.
    pub closed spec fn spec_initial_threshold(&self) -> Seq<BaseValue> {
        self.initial_threshold@
    }

    /// The threshold factor, in millionths.
    pub closed spec fn spec_factor(&self) -> i64 {
        self.threshold_factor
    }

    /// The time limit.
    pub closed spec fn spec_time_limit(&self) -> Option<std::time::Duration> {
        self.time_limit
    }

    /// The threshold factor lies between zero and one.
    pub closed spec fn wf(&self) -> bool {
        0 <= self.threshold_factor <= FLOAT_UNIT
    }

    /// A threshold accepting solver with a reporting function, a time limit (checked after
    /// each step) and an iteration limit.
    pub fn with_options(
        neighborhood: Arc<N>,
        objective: Arc<Objective<S>>,
        initial_threshold: ObjectiveValue,
        threshold_factor: ScalingFactor,
        function_between_steps: F,
        time_limit: Option<std::time::Duration>,
        iteration_limit: Option<u32>,
    ) -> (r: Self)
        requires
            0 <= threshold_factor <= FLOAT_UNIT,
        ensures
            r.wf(),
            r.spec_neighborhood() == &*neighborhood,
            r.spec_objective() == &*objective,
            r.spec_iteration_limit() == iteration_limit,
            r.spec_time_limit() == time_limit,
            r.spec_initial_threshold() == initial_threshold@,
            r.spec_factor() == threshold_factor,
    {
        ThresholdAcceptingSolver {
            neighborhood,
            objective,
            initial_threshold,
            threshold_factor,
            function_between_steps,
            time_limit,
            iteration_limit,
        }
    }

    /// The first neighbor of `current_solution` below its value plus `current_threshold`, or
    /// `None` where there is none or the sum cannot be formed.
    fn explore_neighborhood(
        &self,
        current_solution: &EvaluatedSolution<S>,
        current_threshold: &ObjectiveValue,
    ) -> (r: Option<EvaluatedSolution<S>>)
        requires
            forall|s: S| #[trigger] self.spec_objective().evaluable(s),
        ensures
            addable(current_solution.val(), current_threshold@) ==> first_below_outcome(
                self.spec_objective(),
                self.spec_neighborhood().neighbors(current_solution.sol())@,
                lex_sum(current_solution.val(), current_threshold@),
                r,
            ),
            !addable(current_solution.val(), current_threshold@) ==> r is None,
    {
        let bound = match current_solution.objective_value().try_add(current_threshold) {
            Some(b) => b,
            None => {
                return None;
            },
        };
        let neighbors = self.neighborhood.neighbors_of(current_solution.solution());
        let objective: &Objective<S> = &*self.objective;
        proof {
            assert(objective == self.spec_objective());
        }
        let (found, _pool) = first_below(objective, neighbors, &bound, 0);
        found
    }

    /// Whether exploring from `current` with threshold `threshold` accepts nothing: the bound
    /// `current + threshold` cannot be formed, or no neighbor lies below it.
    pub open spec fn accepts_nothing(&self, current: EvaluatedSolution<S>, threshold: Seq<BaseValue>) -> bool {
        !addable(current.val(), threshold) || first_below_outcome(
            self.spec_objective(),
            self.spec_neighborhood().neighbors(current.sol())@,
            lex_sum(current.val(), threshold),
            None,
        )
    }

    /// One step of a run: from `current` the first neighbor below `current + threshold` is
    /// accepted as `next`; the threshold shrinks by the factor where `next` is not strictly
    /// better than `current`; the best value becomes `next`'s where that is strictly better.
    pub open spec fn threshold_step(
        &self,
        current: EvaluatedSolution<S>,
        threshold: Seq<BaseValue>,
        best: Seq<BaseValue>,
        next: EvaluatedSolution<S>,
        next_threshold: Seq<BaseValue>,
        next_best: Seq<BaseValue>,
    ) -> bool {
        &&& addable(current.val(), threshold)
        &&& first_below_outcome(
            self.spec_objective(),
            self.spec_neighborhood().neighbors(current.sol())@,
            lex_sum(current.val(), threshold),
            Some(next),
        )
        &&& next_threshold == if lex_lt(next.val(), current.val()) {
            threshold
        } else {
            shrunk(threshold, self.spec_factor())
        }
        &&& next_best == if lex_lt(next.val(), best) {
            next.val()
        } else {
            best
        }
    }

    /// Whether the sequences are a run from `initial_solution`: the states, the thresholds in
    /// them and the best values seen, starting at the evaluated initial solution, the initial
    /// threshold and the initial value.
    pub open spec fn is_run(
        &self,
        initial_solution: S,
        currents: Seq<EvaluatedSolution<S>>,
        thresholds: Seq<Seq<BaseValue>>,
        bests: Seq<Seq<BaseValue>>,
    ) -> bool {
        &&& currents.len() >= 1
        &&& thresholds.len() == currents.len()
        &&& bests.len() == currents.len()
        &&& currents[0].sol() == initial_solution
        &&& currents[0].val() == self.spec_objective().value_of(initial_solution)
        &&& thresholds[0] == self.spec_initial_threshold()
        &&& bests[0] == self.spec_objective().value_of(initial_solution)
        &&& forall|k: int|
            0 <= k < currents.len() - 1 ==> #[trigger] self.threshold_step(
                currents[k],
                thresholds[k],
                bests[k],
                currents[k + 1],
                thresholds[k + 1],
                bests[k + 1],
            )
    }

    /// What [`ThresholdAcceptingSolver::run`] returns: after a run of `steps` steps that stops
    /// (nothing accepted, the step cap, or after a step with a time limit set), a solution with
    /// the best value seen; without a step, the evaluated initial solution itself.
    pub open spec fn run_outcome(
        &self,
        initial_solution: S,
        result: EvaluatedSolution<S>,
        steps: u32,
    ) -> bool {
        &&& steps <= step_cap(self.spec_iteration_limit())
        &&& steps == 0 ==> result.sol() == initial_solution
        &&& self.spec_neighborhood().neighbors(initial_solution)@.len() == 0 ==> steps == 0
        &&& exists|
            currents: Seq<EvaluatedSolution<S>>,
            thresholds: Seq<Seq<BaseValue>>,
            bests: Seq<Seq<BaseValue>>,
        |
            #[trigger] self.is_run(initial_solution, currents, thresholds, bests) && currents.len()
                == steps + 1 && result.val() == bests.last() && (exists|b: int|
                #[trigger] best_state(currents, bests, b) && pair_of(result) == pair_of(currents[b])) && (self.accepts_nothing(
                currents.last(),
                thresholds.last(),
            ) || steps == step_cap(self.spec_iteration_limit()) || steps > 0
                && self.spec_time_limit() is Some)
    }

    /// Runs the search from `initial_solution`; returns the best solution seen and the number
    /// of accepted steps.
    pub fn run(&self, initial_solution: S) -> (r: (EvaluatedSolution<S>, u32))
        where
            S: Clone,
        requires
            self.wf(),
            forall|s: S| #[trigger] self.spec_objective().evaluable(s),
            clones_faithfully::<S>(),
        ensures
            self.run_outcome(initial_solution, r.0, r.1),
    {
        let start_time = now();
        let objective: &Objective<S> = &*self.objective;
        proof {
            assert(objective == self.spec_objective());
        }
        let mut current = objective.evaluate(initial_solution);
        let mut best_solution_seen = current.clone();
        let ghost mut best_index: int = 0;
        let mut current_threshold = self.initial_threshold.clone();
        let ghost mut currents: Seq<EvaluatedSolution<S>> = seq![current];
        let ghost mut thresholds: Seq<Seq<BaseValue>> = seq![current_threshold@];
        let ghost mut bests: Seq<Seq<BaseValue>> = seq![current.val()];
        let cap: u32 = match self.iteration_limit {
            Some(k) => if k == 0 {
                1
            } else {
                k
            },
            None => u32::MAX,
        };
        let mut steps: u32 = 0;
        loop
            invariant
                objective == self.spec_objective(),
                self.wf(),
                forall|s: S| #[trigger] objective.evaluable(s),
                cap == step_cap(self.spec_iteration_limit()),
                steps <= cap,
                self.is_run(initial_solution, currents, thresholds, bests),
                currents.len() == steps + 1,
                currents.last() == current,
                thresholds.last() == current_threshold@,
                bests.last() == best_solution_seen.val(),
                best_state(currents, bests, best_index),
                pair_of(best_solution_seen) == pair_of(currents[best_index]),
                clones_faithfully::<S>(),
            ensures
                steps <= cap,
                self.is_run(initial_solution, currents, thresholds, bests),
                currents.len() == steps + 1,
                currents.last() == current,
                bests.last() == best_solution_seen.val(),
                best_state(currents, bests, best_index),
                pair_of(best_solution_seen) == pair_of(currents[best_index]),
                clones_faithfully::<S>(),
                self.accepts_nothing(currents.last(), thresholds.last()) || steps == cap || steps > 0
                    && self.spec_time_limit() is Some,
            decreases cap - steps,
        {
            if steps == cap {
                break;
            }
            match self.explore_neighborhood(&current, &current_threshold) {
                None => {
                    break;
                },
                Some(new_solution) => {
                    self.function_between_steps.call(
                        steps + 1,
                        &new_solution,
                        Some(&current),
                        objective,
                        Some(start_time),
                        self.time_limit,
                        self.iteration_limit,
                    );
                    let ghost old_threshold = current_threshold@;
                    let ghost old_best = best_solution_seen.val();
                    if !new_solution.is_better_than(&current) {
                        proof {
                            assert forall|i: int| 0 <= i < current_threshold@.len() implies (
                            #[trigger] scaled(
                                Coefficient::Float(self.threshold_factor),
                                current_threshold@[i],
                            )) is Some by {
                                lemma_shrinking_scale_defined(
                                    self.threshold_factor,
                                    current_threshold@[i],
                                );
                            }
                        }
                        current_threshold = current_threshold.mul(
                            Coefficient::Float(self.threshold_factor),
                        );
                        assert(current_threshold@ =~= shrunk(old_threshold, self.spec_factor()));
                    }
                    current = new_solution;
                    if current.is_better_than(&best_solution_seen) {
                        best_solution_seen = current.clone();
                        proof {
                            best_index = currents.len() as int;
                        }
                    }
                    proof {
                        let (oc, ot, ob) = (currents, thresholds, bests);
                        currents = currents.push(current);
                        thresholds = thresholds.push(current_threshold@);
                        bests = bests.push(best_solution_seen.val());
                        if best_index < oc.len() {
                            assert(currents[best_index] == oc[best_index]);
                            assert(bests[best_index] == ob[best_index]);
                        }
                        assert forall|j: int| best_index <= j < bests.len() implies #[trigger] bests[j]
                            == bests[best_index] by {
                            if j < ob.len() {
                                assert(bests[j] == ob[j]);
                            }
                        }
                        assert(self.threshold_step(oc.last(), old_threshold, old_best, current, current_threshold@, best_solution_seen.val()));
                        assert forall|k: int| 0 <= k < currents.len() - 1 implies #[trigger] self.threshold_step(
                            currents[k],
                            thresholds[k],
                            bests[k],
                            currents[k + 1],
                            thresholds[k + 1],
                            bests[k + 1],
                        ) by {
                            if k < oc.len() - 1 {
                                assert(currents[k] == oc[k] && currents[k + 1] == oc[k + 1]);
                                assert(thresholds[k] == ot[k] && thresholds[k + 1] == ot[k + 1]);
                                assert(bests[k] == ob[k] && bests[k + 1] == ob[k + 1]);
                            }
                        }
                    }
                    steps += 1;
                    match &self.time_limit {
                        Some(limit) => {
                            if limit_passed(&start_time, limit) {
                                break;
                            }
                        },
                        None => {},
                    }
                },
            }
        }
        proof {
            if self.spec_neighborhood().neighbors(initial_solution)@.len() == 0 && steps > 0 {
                assert(self.threshold_step(currents[0], thresholds[0], bests[0], currents[1], thresholds[1], bests[1]));
                let vals = crate::local_improver::values_of(objective, self.spec_neighborhood().neighbors(currents[0].sol())@);
                assert(vals.len() == 0);
            }
        }
        if steps == 0 {
            (current, steps)
        } else {
            (best_solution_seen, steps)
        }
    }
}

/// Every level of `threshold` multiplied by the real factor `factor` (in millionths).
pub open spec fn shrunk(threshold: Seq<BaseValue>, factor: i64) -> Seq<BaseValue> {
    Seq::new(threshold.len(), |i: int| scaled(Coefficient::Float(factor), threshold[i])->0)
}

impl<S: Clone, N: Neighborhood<S> + ?Sized, F: FunctionBetweenSteps<S>> Solver<S> for ThresholdAcceptingSolver<
    S,
    N,
    F,
> {
    open spec fn ready(&self) -> bool {
        &&& clones_faithfully::<S>()
        &&& self.wf()
        &&& forall|s: S| #[trigger] self.spec_objective().evaluable(s)
    }

    open spec fn solved(&self, initial_solution: S, result: EvaluatedSolution<S>) -> bool {
        exists|steps: u32| #[trigger] self.run_outcome(initial_solution, result, steps)
    }

    fn solve(&self, initial_solution: S) -> (r: EvaluatedSolution<S>) {
        let (r, steps) = self.run(initial_solution);
        assert(self.run_outcome(initial_solution, r, steps));
        r
    }
}

} // verus!
