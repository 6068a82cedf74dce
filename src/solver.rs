//! What all solvers share: the [`Solver`] trait, the function called between steps, and the
//! local search solver.
use crate::clock::{limit_passed, now};
use crate::local_improver::{LocalImprover, Minimizer};
use crate::neighborhood::Neighborhood;
use crate::objective::{EvaluatedSolution, Objective};
use crate::base_value::BaseValue;
use crate::local_improver::{lemma_lex_antisymmetric, totally_ordered_set};
use crate::objective_value::{lex_cmp, lex_le, lex_lt};
use std::sync::Arc;
use std::time::Instant;
use vstd::prelude::*;

verus! {

/// A solver that improves an initial solution.
pub trait Solver<S> {
    /// Whether the solver can run: its objective can evaluate every solution.
    spec fn ready(&self) -> bool;

    /// What the solver may return when it starts from `initial_solution`.
    spec fn solved(&self, initial_solution: S, result: EvaluatedSolution<S>) -> bool;

    /// Solves the problem starting from `initial_solution`.
    fn solve(&self, initial_solution: S) -> (r: EvaluatedSolution<S>)
        requires
            self.ready(),
        ensures
            self.solved(initial_solution, r),
    ;
}

/// Called after every accepted step of a solver, for logging: the iteration number, the new
/// solution, the previous one, the objective, the start time, the time limit and the iteration
/// limit. It does not change the solver.
pub trait FunctionBetweenSteps<S> {
    /// Reports one step.
    fn call(
        &self,
        iteration: u32,
        current: &EvaluatedSolution<S>,
        previous: Option<&EvaluatedSolution<S>>,
        objective: &Objective<S>,
        start_time: Option<Instant>,
        time_limit: Option<std::time::Duration>,
        iteration_limit: Option<u32>,
    );
}

/// A [`FunctionBetweenSteps`] that reports nothing.
pub struct Silent;

impl<S> FunctionBetweenSteps<S> for Silent {
    fn call(
        &self,
        iteration: u32,
        current: &EvaluatedSolution<S>,
        previous: Option<&EvaluatedSolution<S>>,
        objective: &Objective<S>,
        start_time: Option<Instant>,
        time_limit: Option<std::time::Duration>,
        iteration_limit: Option<u32>,
    ) {
    }
}

/// The number of steps after which a solver stops: the iteration limit, or `u32::MAX` where
/// there is none.
pub open spec fn step_cap(iteration_limit: Option<u32>) -> int {
    match iteration_limit {
        Some(k) => if k == 0 {
            1
        } else {
            k as int
        },
        None => u32::MAX as int,
    }
}

/// A local search solver: starting from an initial solution it asks its [`LocalImprover`] for
/// a better neighbor until there is none (a local optimum), or a time or iteration limit is
/// reached after a step. It returns the last solution.
#[verifier::reject_recursive_types(S)]
pub struct LocalSearchSolver<S, I: LocalImprover<S>, F: FunctionBetweenSteps<S>> {
    objective: Arc<Objective<S>>,
    local_improver: I,
    function_between_steps: F,
    time_limit: Option<std::time::Duration>,
    iteration_limit: Option<u32>,
}

impl<S, N: Neighborhood<S> + ?Sized> LocalSearchSolver<S, Minimizer<S, N>, Silent> {
    /// A local search solver with the [`Minimizer`] over `neighborhood` and `objective`,
    /// without limits and without reporting.
    pub fn initialize(neighborhood: Arc<N>, objective: Arc<Objective<S>>) -> (r: Self)
        ensures
            r.spec_objective() == &*objective,
            r.spec_improver().spec_neighborhood() == &*neighborhood,
            r.spec_improver().spec_objective() == &*objective,
            r.spec_time_limit() is None,
            r.spec_iteration_limit() is None,
    {
        let improver = Minimizer::new(neighborhood, objective.clone());
        LocalSearchSolver {
            objective,
            local_improver: improver,
            function_between_steps: Silent,
            time_limit: None,
            iteration_limit: None,
        }
    }
}

impl<S, I: LocalImprover<S>, F: FunctionBetweenSteps<S>> LocalSearchSolver<S, I, F> {
    /// The objective.
    pub closed spec fn spec_objective(&self) -> &Objective<S> {
        &*self.objective
    }

    /// The improver.
    pub closed spec fn spec_improver(&self) -> &I {
        &self.local_improver
    }

    /// The time limit.
    pub closed spec fn spec_time_limit(&self) -> Option<std::time::Duration> {
        self.time_limit
    }

    /// The iteration limit.
    pub closed spec fn spec_iteration_limit(&self) -> Option<u32> {
        self.iteration_limit
    }

    /// A local search solver with the given improver, reporting function, time limit (checked
    /// after each step) and iteration limit.
    pub fn with_options(
        objective: Arc<Objective<S>>,
        local_improver: I,
        function_between_steps: F,
        time_limit: Option<std::time::Duration>,
        iteration_limit: Option<u32>,
    ) -> (r: Self)
        ensures
            r.spec_objective() == &*objective,
            r.spec_improver() == &local_improver,
            r.spec_time_limit() == time_limit,
            r.spec_iteration_limit() == iteration_limit,
    {
        LocalSearchSolver {
            objective,
            local_improver,
            function_between_steps,
            time_limit,
            iteration_limit,
        }
    }

    /// Whether `trace` is a run of the local search from `initial_solution`: it starts at the
    /// evaluated initial solution, and each later state is an answer of the improver to the state
    /// before it, strictly better than that state.
    pub open spec fn is_run(&self, initial_solution: S, trace: Seq<EvaluatedSolution<S>>) -> bool {
        &&& trace.len() >= 1
        &&& trace[0].sol() == initial_solution
        &&& trace[0].val() == self.spec_objective().value_of(initial_solution)
        &&& forall|k: int|
            0 <= k < trace.len() - 1 ==> #[trigger] self.spec_improver().outcome(
                trace[k],
                Some(trace[k + 1]),
            ) && lex_lt(trace[k + 1].val(), trace[k].val())
    }

    /// Whether a run that took `steps` steps and ended at `last` stops there: the improver
    /// finds nothing for `last`, the step cap is reached, or (after at least one step) a time
    /// limit is set.
    pub open spec fn stops(&self, last: EvaluatedSolution<S>, steps: int) -> bool {
        ||| self.spec_improver().outcome(last, None)
        ||| steps == step_cap(self.spec_iteration_limit())
        ||| self.spec_time_limit() is Some && steps > 0
    }

    /// What [`LocalSearchSolver::run`] returns: the last state of a run from
    /// `initial_solution` with `steps` steps, at which the run stops.
    pub open spec fn run_outcome(
        &self,
        initial_solution: S,
        result: EvaluatedSolution<S>,
        steps: u32,
    ) -> bool {
        &&& steps <= step_cap(self.spec_iteration_limit())
        &&& self.stops(result, steps as int)
        &&& exists|trace: Seq<EvaluatedSolution<S>>|
            #[trigger] self.is_run(initial_solution, trace) && trace.len() == steps + 1
                && trace.last() == result
    }

    /// Runs the local search from `initial_solution` and returns the last solution with the
    /// number of improving steps taken. Each step asks the improver for a strictly better
    /// neighbor of the current solution; the search stops at a solution for which the improver
    /// finds nothing, at the step cap, or after a step once the time limit has passed.
    pub fn run(&self, initial_solution: S) -> (r: (EvaluatedSolution<S>, u32))
        requires
            self.spec_improver().ready(),
            forall|s: S| #[trigger] self.spec_objective().evaluable(s),
        ensures
            self.run_outcome(initial_solution, r.0, r.1),
    {
        let start_time = now();
        let objective: &Objective<S> = &*self.objective;
        let mut current = objective.evaluate(initial_solution);
        let ghost mut trace: Seq<EvaluatedSolution<S>> = seq![current];
        let cap: u32 = match self.iteration_limit {
            Some(k) => if k == 0 {
                1
            } else {
                k
            },
            None => u32::MAX,
        };
        let mut steps: u32 = 0;
        loop
            invariant
                objective == self.spec_objective(),
                self.spec_improver().ready(),
                cap == step_cap(self.spec_iteration_limit()),
                steps <= cap,
                self.is_run(initial_solution, trace),
                trace.len() == steps + 1,
                trace.last() == current,
            ensures
                self.stops(current, steps as int),
                steps <= cap,
                self.is_run(initial_solution, trace),
                trace.len() == steps + 1,
                trace.last() == current,
            decreases cap - steps,
        {
            if steps == cap {
                break;
            }
            match self.local_improver.improve(&current) {
                None => {
                    break;
                },
                Some(new_solution) => {
                    proof {
                        let old_trace = trace;
                        trace = trace.push(new_solution);
                        assert forall|k: int| 0 <= k < trace.len() - 1 implies #[trigger] self.spec_improver().outcome(
                            trace[k],
                            Some(trace[k + 1]),
                        ) && lex_lt(trace[k + 1].val(), trace[k].val()) by {
                            if k < old_trace.len() - 1 {
                                assert(trace[k] == old_trace[k] && trace[k + 1] == old_trace[k + 1]);
                            }
                        }
                    }
                    self.function_between_steps.call(
                        steps + 1,
                        &new_solution,
                        Some(&current),
                        objective,
                        Some(start_time),
                        self.time_limit,
                        self.iteration_limit,
                    );
                    current = new_solution;
                    steps += 1;
                    match &self.time_limit {
                        Some(limit) => {
                            if limit_passed(&start_time, limit) {
                                break;
                            }
                        },
                        None => {},
                    }
                },
            }
        }
        (current, steps)
    }
}

impl<S, I: LocalImprover<S>, F: FunctionBetweenSteps<S>> Solver<S> for LocalSearchSolver<S, I, F> {
    open spec fn ready(&self) -> bool {
        &&& self.spec_improver().ready()
        &&& forall|s: S| #[trigger] self.spec_objective().evaluable(s)
    }

    open spec fn solved(&self, initial_solution: S, result: EvaluatedSolution<S>) -> bool {
        exists|steps: u32| #[trigger] self.run_outcome(initial_solution, result, steps)
    }

    fn solve(&self, initial_solution: S) -> (r: EvaluatedSolution<S>) {
        let (r, steps) = self.run(initial_solution);
        assert(self.run_outcome(initial_solution, r, steps));
        r
    }
}

/// Along a chain of values where each value equals the one before or is strictly smaller (the
/// best values of a run, or the values of a local search run), the last value is at most the
/// first wherever the order is a total order on the chain.
pub proof fn lemma_chain_not_worse(values: Seq<Seq<BaseValue>>)
    requires
        values.len() >= 1,
        forall|k: int|
            0 <= k < values.len() - 1 ==> values[k + 1] == values[k] || lex_lt(
                #[trigger] values[k + 1],
                values[k],
            ),
        totally_ordered_set(values),
    ensures
        lex_le(values.last(), values[0]),
    decreases values.len(),
{
    if values.len() == 1 {
        assert(lex_cmp(values[0], values[0]) is Some);
        lemma_lex_antisymmetric(values[0], values[0]);
    } else {
        let shorter = values.drop_last();
        assert forall|i: int, j: int|
            0 <= i < shorter.len() && 0 <= j < shorter.len() implies (#[trigger] lex_cmp(
                shorter[i],
                shorter[j],
            )) is Some && lex_cmp(shorter[j], shorter[i])->0 == crate::base_value::reverse(
                lex_cmp(shorter[i], shorter[j])->0,
            ) by {
            assert(shorter[i] == values[i] && shorter[j] == values[j]);
        }
        assert forall|i: int, j: int, k: int|
            0 <= i < shorter.len() && 0 <= j < shorter.len() && 0 <= k < shorter.len()
                && #[trigger] lex_le(shorter[i], shorter[j]) && #[trigger] lex_le(
                shorter[j],
                shorter[k],
            ) implies lex_le(shorter[i], shorter[k]) && (lex_lt(shorter[i], shorter[j]) || lex_lt(
            shorter[j],
            shorter[k],
        ) ==> lex_lt(shorter[i], shorter[k])) by {
            assert(shorter[i] == values[i] && shorter[j] == values[j] && shorter[k] == values[k]);
            assert(lex_le(values[i], values[j]) && lex_le(values[j], values[k]));
        }
        assert forall|k: int| 0 <= k < shorter.len() - 1 implies shorter[k + 1] == shorter[k]
            || lex_lt(#[trigger] shorter[k + 1], shorter[k]) by {
            assert(shorter[k] == values[k] && shorter[k + 1] == values[k + 1]);
        }
        lemma_chain_not_worse(shorter);
        let n = values.len() - 1;
        let j = n - 1;
        assert(values[j + 1] == values[j] || lex_lt(values[j + 1], values[j]));
        assert(shorter.last() == values[n - 1]);
        if values[n] == values[n - 1] {
        } else {
            assert(lex_lt(values[n], values[n - 1]));
            assert(lex_le(values[n], values[n - 1]));
            assert(lex_le(values[n], values[0]));
        }
    }
}

/// Whether state `b` of a run is where its best value was last set: the best value there is
/// that state's value and stays so to the end of the run.
pub open spec fn best_state<S>(
    currents: Seq<EvaluatedSolution<S>>,
    bests: Seq<Seq<BaseValue>>,
    b: int,
) -> bool {
    &&& 0 <= b < currents.len()
    &&& b < bests.len()
    &&& bests[b] == currents[b].val()
    &&& forall|j: int| b <= j < bests.len() ==> #[trigger] bests[j] == bests[b]
}

} // verus!
