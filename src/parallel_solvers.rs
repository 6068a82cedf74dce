//! The parallel local search and parallel tabu search solvers: the sequential solvers with
//! improvers that scan neighborhoods on several threads by default.
use crate::local_improver::LocalImprover;
use crate::neighborhood::{Neighborhood, TabuNeighborhood};
use crate::objective::{EvaluatedSolution, Objective};
use crate::parallel::{ParallelMinimizer, ParallelTabuMinimizer};
use crate::solver::{FunctionBetweenSteps, LocalSearchSolver, Silent, Solver};
use crate::tabu_search::{TabuImprover, TabuSearchSolver};
use std::sync::Arc;
use vstd::prelude::*;

verus! {

/// A local search solver whose default improver is the [`ParallelMinimizer`].
#[verifier::reject_recursive_types(S)]
pub struct ParallelLocalSearchSolver<S, I: LocalImprover<S>, F: FunctionBetweenSteps<S>> {
    solver: LocalSearchSolver<S, I, F>,
}

impl<S: Send + Sync, N: Neighborhood<S> + ?Sized> ParallelLocalSearchSolver<
    S,
    ParallelMinimizer<S, N>,
    Silent,
> {
    /// A parallel local search solver with the [`ParallelMinimizer`] over `neighborhood` and
    /// `objective`, without limits and without reporting.
    pub fn initialize(neighborhood: Arc<N>, objective: Arc<Objective<S>>) -> (r: Self)
        ensures
            r.inner().spec_objective() == &*objective,
            r.inner().spec_improver().spec_neighborhood() == &*neighborhood,
            r.inner().spec_improver().spec_objective() == &*objective,
            r.inner().spec_time_limit() is None,
            r.inner().spec_iteration_limit() is None,
    {
        let improver = ParallelMinimizer::new(neighborhood, objective.clone());
        ParallelLocalSearchSolver {
            solver: LocalSearchSolver::with_options(objective, improver, Silent, None, None),
        }
    }
}

impl<S, I: LocalImprover<S>, F: FunctionBetweenSteps<S>> ParallelLocalSearchSolver<S, I, F> {
    /// The underlying local search solver.
    pub closed spec fn inner(&self) -> LocalSearchSolver<S, I, F> {
        self.solver
    }

    /// A parallel local search solver with the given improver, reporting function, time limit
    /// and iteration limit.
    pub fn with_options(
        objective: Arc<Objective<S>>,
        local_improver: I,
        function_between_steps: F,
        time_limit: Option<std::time::Duration>,
        iteration_limit: Option<u32>,
    ) -> (r: Self)
        ensures
            r.inner().spec_objective() == &*objective,
            r.inner().spec_improver() == &local_improver,
            r.inner().spec_time_limit() == time_limit,
            r.inner().spec_iteration_limit() == iteration_limit,
    {
        ParallelLocalSearchSolver {
            solver: LocalSearchSolver::with_options(
                objective,
                local_improver,
                function_between_steps,
                time_limit,
                iteration_limit,
            ),
        }
    }

    /// Runs the search; see [`LocalSearchSolver::run`].
    pub fn run(&self, initial_solution: S) -> (r: (EvaluatedSolution<S>, u32))
        requires
            self.inner().spec_improver().ready(),
            forall|s: S| #[trigger] self.inner().spec_objective().evaluable(s),
        ensures
            self.inner().run_outcome(initial_solution, r.0, r.1),
    {
        self.solver.run(initial_solution)
    }
}

impl<S, I: LocalImprover<S>, F: FunctionBetweenSteps<S>> Solver<S> for ParallelLocalSearchSolver<
    S,
    I,
    F,
> {
    open spec fn ready(&self) -> bool {
        self.inner().ready()
    }

    open spec fn solved(&self, initial_solution: S, result: EvaluatedSolution<S>) -> bool {
        self.inner().solved(initial_solution, result)
    }

    fn solve(&self, initial_solution: S) -> (r: EvaluatedSolution<S>) {
        self.solver.solve(initial_solution)
    }
}

/// A tabu search solver whose default improver is the [`ParallelTabuMinimizer`].
#[verifier::reject_recursive_types(S)]
#[verifier::reject_recursive_types(T)]
pub struct ParallelTabuSearchSolver<S, T, I: TabuImprover<S, T>, F: FunctionBetweenSteps<S>> {
    solver: TabuSearchSolver<S, T, I, F>,
}

impl<S: Send + Sync, T: Send + Sync, N: TabuNeighborhood<S, T> + ?Sized> ParallelTabuSearchSolver<
    S,
    T,
    ParallelTabuMinimizer<S, T, N>,
    Silent,
> {
    /// A parallel tabu search solver with the [`ParallelTabuMinimizer`], stopping after
    /// `iteration_without_global_improvement_limit` steps without a new best solution.
    pub fn initialize(
        neighborhood: Arc<N>,
        objective: Arc<Objective<S>>,
        tabu_list_size: usize,
        iteration_without_global_improvement_limit: u32,
    ) -> (r: Self)
        ensures
            r.inner().spec_objective() == &*objective,
            r.inner().spec_improver().spec_neighborhood() == &*neighborhood,
            r.inner().spec_improver().spec_objective() == &*objective,
            r.inner().spec_tabu_list_size() == tabu_list_size,
    {
        let improver = ParallelTabuMinimizer::new(neighborhood, objective.clone());
        ParallelTabuSearchSolver {
            solver: TabuSearchSolver::with_options(
                objective,
                tabu_list_size,
                improver,
                Silent,
                Some(iteration_without_global_improvement_limit),
                None,
                None,
            ),
        }
    }
}

impl<S, T, I: TabuImprover<S, T>, F: FunctionBetweenSteps<S>> ParallelTabuSearchSolver<S, T, I, F> {
    /// The underlying tabu search solver.
    pub closed spec fn inner(&self) -> TabuSearchSolver<S, T, I, F> {
        self.solver
    }

    /// A parallel tabu search solver with the given improver, reporting function and
    /// termination criteria, of which at least one must be set.
    pub fn with_options(
        objective: Arc<Objective<S>>,
        tabu_list_size: usize,
        local_improver: I,
        function_between_steps: F,
        iteration_without_global_improvement_limit: Option<u32>,
        time_limit: Option<std::time::Duration>,
        iteration_limit: Option<u32>,
    ) -> (r: Self)
        requires
            iteration_without_global_improvement_limit is Some || time_limit is Some
                || iteration_limit is Some,
        ensures
            r.inner().spec_objective() == &*objective,
            r.inner().spec_improver() == &local_improver,
            r.inner().spec_tabu_list_size() == tabu_list_size,
            r.inner().spec_iteration_limit() == iteration_limit,
    {
        ParallelTabuSearchSolver {
            solver: TabuSearchSolver::with_options(
                objective,
                tabu_list_size,
                local_improver,
                function_between_steps,
                iteration_without_global_improvement_limit,
                time_limit,
                iteration_limit,
            ),
        }
    }
}

impl<S: Clone, T, I: TabuImprover<S, T>, F: FunctionBetweenSteps<S>> Solver<S> for ParallelTabuSearchSolver<
    S,
    T,
    I,
    F,
> {
    open spec fn ready(&self) -> bool {
        self.inner().ready()
    }

    open spec fn solved(&self, initial_solution: S, result: EvaluatedSolution<S>) -> bool {
        self.inner().solved(initial_solution, result)
    }

    fn solve(&self, initial_solution: S) -> (r: EvaluatedSolution<S>) {
        self.solver.solve(initial_solution)
    }
}

} // verus!
