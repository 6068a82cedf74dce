//! Tabu search: always move to the best allowed neighbor, remember recent moves as tabus in a
//! bounded first-in first-out list, and return the best solution seen.
use crate::base_value::BaseValue;
use crate::clock::{limit_passed, now};
use crate::local_improver::running_min;
use crate::neighborhood::{reversed, TabuNeighborhood};
use crate::local_improver::pair_of;
use crate::objective::{clones_faithfully, EvaluatedSolution, Objective};
use crate::solver::best_state;
use crate::objective_value::lex_lt;
use crate::solver::{step_cap, FunctionBetweenSteps, Silent, Solver};
use std::cmp::Ordering;
use std::collections::VecDeque;
use std::sync::Arc;
use vstd::prelude::*;

verus! {

/// The last `n` elements of `s` (all of them where `s` is shorter).
pub open spec fn last_n<T>(s: Seq<T>, n: int) -> Seq<T> {
    if s.len() <= n {
        s
    } else {
        s.skip(s.len() - n)
    }
}

/// Appends `new_tabus` to `tabu_list` and then removes the oldest tabus until at most
/// `capacity` remain: the list holds the newest `capacity` tabus, oldest first.
pub fn add_tabus<T>(tabu_list: &mut VecDeque<T>, new_tabus: Vec<T>, capacity: usize)
    ensures
        final(tabu_list)@ == last_n(old(tabu_list)@ + new_tabus@, capacity as int),
        final(tabu_list)@.len() <= capacity || final(tabu_list)@.len() == old(tabu_list)@.len()
            + new_tabus@.len() && old(tabu_list)@.len() + new_tabus@.len() <= capacity,
{
    let ghost all = old(tabu_list)@ + new_tabus@;
    let ghost start = old(tabu_list)@;
    let ghost added = new_tabus@;
    let mut rest = reversed(new_tabus);
    let total = rest.len();
    let mut k: usize = 0;
    while rest.len() > 0
        invariant
            rest@.len() + k == added.len(),
            added.len() == total,
            forall|j: int| 0 <= j < rest@.len() ==> #[trigger] rest@[j] == added[added.len() - 1 - j],
            tabu_list@ == start + added.take(k as int),
        decreases rest@.len(),
    {
        let t = rest.pop().unwrap();
        tabu_list.push_back(t);
        k += 1;
        assert(tabu_list@ =~= start + added.take(k as int));
    }
    assert(added.take(k as int) =~= added);
    while tabu_list.len() > capacity
        invariant
            tabu_list@.len() >= capacity ==> tabu_list@ == all.skip(all.len() - tabu_list@.len()),
            tabu_list@.len() < capacity ==> tabu_list@ == all,
            tabu_list@.len() <= all.len(),
        decreases tabu_list@.len(),
    {
        let ghost before = tabu_list@;
        tabu_list.pop_front();
        assert(tabu_list@ =~= all.skip(all.len() - tabu_list@.len()));
    }
    assert(all.skip(0) =~= all);
}

/// The objective values of the solutions of a tabu neighborhood.
pub open spec fn tabu_values<S, T>(objective: &Objective<S>, ns: Seq<(S, Vec<T>)>) -> Seq<
    Seq<BaseValue>,
> {
    ns.map_values(|p: (S, Vec<T>)| objective.value_of(p.0))
}

/// A strategy that picks, for a solution and a tabu list, an allowed neighbor with its new
/// tabus; it returns `None` only where there is no allowed neighbor.
pub trait TabuImprover<S, T>: Send + Sync {
    /// Whether the strategy can run: its objective can evaluate every solution.
    spec fn ready(&self) -> bool;

    /// What the strategy returns for `solution` under `tabu_list`.
    spec fn outcome(
        &self,
        solution: EvaluatedSolution<S>,
        tabu_list: VecDeque<T>,
        result: Option<(EvaluatedSolution<S>, Vec<T>)>,
    ) -> bool;

    /// Returns an allowed neighbor of `solution` with its new tabus, or `None`.
    fn improve(&self, solution: &EvaluatedSolution<S>, tabu_list: &VecDeque<T>) -> (r: Option<
        (EvaluatedSolution<S>, Vec<T>),
    >)
        requires
            self.ready(),
        ensures
            self.outcome(*solution, *tabu_list, r),
    ;
}

/// Scans the whole tabu neighborhood and returns the best allowed neighbor with its tabus,
/// whether or not it is better than the given solution. No parallelism.
#[verifier::reject_recursive_types(S)]
#[verifier::reject_recursive_types(T)]
#[verifier::reject_recursive_types(N)]
pub struct TabuMinimizer<S, T, N: TabuNeighborhood<S, T> + ?Sized> {
    neighborhood: Arc<N>,
    objective: Arc<Objective<S>>,
    tabu: std::marker::PhantomData<T>,
}

/// What [`TabuMinimizer`] returns: `None` exactly where there is no allowed neighbor, else the
/// running minimum of the allowed neighbors with its tabus.
pub open spec fn tabu_minimizer_outcome<S, T, N: TabuNeighborhood<S, T> + ?Sized>(
    neighborhood: &N,
    objective: &Objective<S>,
    solution: EvaluatedSolution<S>,
    tabu_list: VecDeque<T>,
    result: Option<(EvaluatedSolution<S>, Vec<T>)>,
) -> bool {
    let ns = neighborhood.neighbors(solution.sol(), tabu_list)@;
    let vals = tabu_values(objective, ns);
    let m = running_min(vals);
    match result {
        None => ns.len() == 0,
        Some((b, tabus)) => {
            &&& ns.len() > 0
            &&& b.sol() == ns[m].0
            &&& b.val() == vals[m]
            &&& tabus@ == ns[m].1@
        },
    }
}

impl<S, T, N: TabuNeighborhood<S, T> + ?Sized> TabuMinimizer<S, T, N> {
    /// The neighborhood.
    pub closed spec fn spec_neighborhood(&self) -> &N {
        &*self.neighborhood
    }

    /// The objective.
    pub closed spec fn spec_objective(&self) -> &Objective<S> {
        &*self.objective
    }

    /// Creates a [`TabuMinimizer`] over `neighborhood` and `objective`.
    pub fn new(neighborhood: Arc<N>, objective: Arc<Objective<S>>) -> (r: Self)
        ensures
            r.spec_neighborhood() == &*neighborhood,
            r.spec_objective() == &*objective,
    {
        TabuMinimizer { neighborhood, objective, tabu: std::marker::PhantomData }
    }
}

impl<S: Send + Sync, T: Send + Sync, N: TabuNeighborhood<S, T> + ?Sized> TabuImprover<S, T> for TabuMinimizer<S, T, N> {
    open spec fn ready(&self) -> bool {
        forall|s: S| #[trigger] self.spec_objective().evaluable(s)
    }

    open spec fn outcome(
        &self,
        solution: EvaluatedSolution<S>,
        tabu_list: VecDeque<T>,
        result: Option<(EvaluatedSolution<S>, Vec<T>)>,
    ) -> bool {
        tabu_minimizer_outcome(
            self.spec_neighborhood(),
            self.spec_objective(),
            solution,
            tabu_list,
            result,
        )
    }

    fn improve(&self, solution: &EvaluatedSolution<S>, tabu_list: &VecDeque<T>) -> (r: Option<
        (EvaluatedSolution<S>, Vec<T>),
    >) {
        let neighbors = self.neighborhood.neighbors_of(solution.solution(), tabu_list);
        let ghost ns = neighbors@;
        let objective: &Objective<S> = &*self.objective;
        let ghost vals = tabu_values(objective, ns);
        proof {
            assert(objective == self.spec_objective());
        }
        let mut rest = reversed(neighbors);
        let total = rest.len();
        let mut best: Option<(EvaluatedSolution<S>, Vec<T>)> = None;
        let mut k: usize = 0;
        while rest.len() > 0
            invariant
                rest@.len() + k == ns.len(),
                ns.len() == total,
                vals.len() == ns.len(),
                forall|j: int| 0 <= j < rest@.len() ==> #[trigger] rest@[j] == ns[ns.len() - 1 - j],
                vals == tabu_values(objective, ns),
                forall|s: S| #[trigger] objective.evaluable(s),
                (k == 0) == (best is None),
                k > 0 ==> 0 <= running_min(vals.take(k as int)) < k,
                best is Some ==> {
                    let m = running_min(vals.take(k as int));
                    &&& (best->0).0.sol() == ns[m].0
                    &&& (best->0).0.val() == vals[m]
                    &&& (best->0).1@ == ns[m].1@
                },
            decreases rest@.len(),
        {
            let (n, tabus) = rest.pop().unwrap();
            let e = objective.evaluate(n);
            proof {
                assert(vals[k as int] == objective.value_of(ns[k as int].0));
                assert(vals.take(k + 1).drop_last() =~= vals.take(k as int));
                assert(vals.take(k + 1).last() == vals[k as int]);
                if k > 0 {
                    crate::local_improver::lemma_running_min_bounds(vals.take(k as int));
                }
            }
            best = match best {
                None => Some((e, tabus)),
                Some((b, bt)) => {
                    match b.objective_value().try_compare(e.objective_value()) {
                        Some(Ordering::Greater) => Some((e, tabus)),
                        _ => Some((b, bt)),
                    }
                },
            };
            k += 1;
        }
        proof {
            assert(vals.take(k as int) =~= vals);
        }
        best
    }
}

/// A tabu search solver. Each step moves to the neighbor that the [`TabuImprover`] picks (even
/// a worse one), adds its tabus to the tabu list (keeping the newest `tabu_list_size`), and
/// keeps the best solution seen. It stops where no neighbor is allowed, or when the limit of
/// steps without a new best, the time limit or the iteration limit is reached; at least one of
/// the three is set.
#[verifier::reject_recursive_types(S)]
#[verifier::reject_recursive_types(T)]
pub struct TabuSearchSolver<S, T, I: TabuImprover<S, T>, F: FunctionBetweenSteps<S>> {
    objective: Arc<Objective<S>>,
    tabu_list_size: usize,
    local_improver: I,
    function_between_steps: F,
    iteration_without_global_improvement_limit: Option<u32>,
    time_limit: Option<std::time::Duration>,
    iteration_limit: Option<u32>,
    tabu: std::marker::PhantomData<T>,
}

impl<S: Send + Sync, T: Send + Sync, N: TabuNeighborhood<S, T> + ?Sized> TabuSearchSolver<
    S,
    T,
    TabuMinimizer<S, T, N>,
    Silent,
> {
    /// A tabu search solver with the [`TabuMinimizer`], stopping after
    /// `iteration_without_global_improvement_limit` steps without a new best solution.
    pub fn initialize(
        neighborhood: Arc<N>,
        objective: Arc<Objective<S>>,
        tabu_list_size: usize,
        iteration_without_global_improvement_limit: u32,
    ) -> (r: Self)
        ensures
            r.spec_objective() == &*objective,
            r.spec_improver().spec_neighborhood() == &*neighborhood,
            r.spec_improver().spec_objective() == &*objective,
            r.spec_tabu_list_size() == tabu_list_size,
    {
        let improver = TabuMinimizer::new(neighborhood, objective.clone());
        TabuSearchSolver::with_options(
            objective,
            tabu_list_size,
            improver,
            Silent,
            Some(iteration_without_global_improvement_limit),
            None,
            None,
        )
    }
}

impl<S, T, I: TabuImprover<S, T>, F: FunctionBetweenSteps<S>> TabuSearchSolver<S, T, I, F> {
    /// The objective.
    pub closed spec fn spec_objective(&self) -> &Objective<S> {
        &*self.objective
    }

    /// The improver.
    pub closed spec fn spec_improver(&self) -> &I {
        &self.local_improver
    }

    /// The capacity of the tabu list.
    pub closed spec fn spec_tabu_list_size(&self) -> usize {
        self.tabu_list_size
    }

    /// The iteration limit.
    pub closed spec fn spec_iteration_limit(&self) -> Option<u32> {
        self.iteration_limit
    }

    /// The time limit.
    pub closed spec fn spec_time_limit(&self) -> Option<std::time::Duration> {
        self.time_limit
    }

    /// The limit of steps without a new best solution.
    pub closed spec fn spec_without_limit(&self) -> Option<u32> {
        self.iteration_without_global_improvement_limit
    }

    /// A tabu search solver with the given improver, reporting function and termination
    /// criteria, of which at least one must be set.
    pub fn with_options(
        objective: Arc<Objective<S>>,
        tabu_list_size: usize,
        local_improver: I,
        function_between_steps: F,
        iteration_without_global_improvement_limit: Option<u32>,
        time_limit: Option<std::time::Duration>,
        iteration_limit: Option<u32>,
    ) -> (r: Self)
        requires
            iteration_without_global_improvement_limit is Some || time_limit is Some
                || iteration_limit is Some,
        ensures
            r.spec_objective() == &*objective,
            r.spec_improver() == &local_improver,
            r.spec_tabu_list_size() == tabu_list_size,
            r.spec_iteration_limit() == iteration_limit,
            r.spec_time_limit() == time_limit,
            r.spec_without_limit() == iteration_without_global_improvement_limit,
    {
        TabuSearchSolver {
            objective,
            tabu_list_size,
            local_improver,
            function_between_steps,
            iteration_without_global_improvement_limit,
            time_limit,
            iteration_limit,
            tabu: std::marker::PhantomData,
        }
    }

    /// One step of a run: from `current` with tabu list `list` the improver moves to `next`
    /// with new tabus `tabus`; the next list holds the newest `tabu_list_size` tabus of `list`
    /// followed by `tabus`; the best value becomes `next`'s where that is strictly better.
    pub open spec fn tabu_step(
        &self,
        current: EvaluatedSolution<S>,
        list: VecDeque<T>,
        next: EvaluatedSolution<S>,
        tabus: Vec<T>,
        next_list: VecDeque<T>,
        best: Seq<BaseValue>,
        next_best: Seq<BaseValue>,
    ) -> bool {
        &&& self.spec_improver().outcome(current, list, Some((next, tabus)))
        &&& next_list@ == last_n(list@ + tabus@, self.spec_tabu_list_size() as int)
        &&& next_best == if lex_lt(next.val(), best) {
            next.val()
        } else {
            best
        }
    }

    /// Whether the sequences are a run of the tabu search from `initial_solution`: the states
    /// `currents`, the tabu lists handed to the improver in them (`lists`), the tabus added by
    /// each step (`added`) and the best values seen (`bests`). The run starts at the evaluated
    /// initial solution with an empty tabu list, and no list holds more than `tabu_list_size`
    /// tabus.
    pub open spec fn is_run(
        &self,
        initial_solution: S,
        currents: Seq<EvaluatedSolution<S>>,
        lists: Seq<VecDeque<T>>,
        added: Seq<Vec<T>>,
        bests: Seq<Seq<BaseValue>>,
    ) -> bool {
        &&& currents.len() >= 1
        &&& lists.len() == currents.len()
        &&& bests.len() == currents.len()
        &&& added.len() + 1 == currents.len()
        &&& currents[0].sol() == initial_solution
        &&& currents[0].val() == self.spec_objective().value_of(initial_solution)
        &&& lists[0]@ == Seq::<T>::empty()
        &&& bests[0] == self.spec_objective().value_of(initial_solution)
        &&& forall|k: int|
            0 <= k < added.len() ==> #[trigger] self.tabu_step(
                currents[k],
                lists[k],
                currents[k + 1],
                added[k],
                lists[k + 1],
                bests[k],
                bests[k + 1],
            )
        &&& forall|k: int| 0 <= k < lists.len() ==> (#[trigger] lists[k]@).len() <= self.spec_tabu_list_size()
    }

    /// Whether a run with `steps` steps ending in `last`, its tabu list `list` and `without`
    /// trailing steps without a new best value stops there: no neighbor is allowed, the step
    /// cap is reached, or (after a step) the limit of steps without a new best is reached or a
    /// time limit is set.
    /// Whether, after the first `k` steps of a run, the limit of steps without a new best
    /// value is reached.
    pub open spec fn reached_without_limit(
        &self,
        currents: Seq<EvaluatedSolution<S>>,
        bests: Seq<Seq<BaseValue>>,
        k: int,
    ) -> bool {
        match self.spec_without_limit() {
            Some(l) => steps_without_new_best(currents.take(k + 1), bests.take(k + 1)) >= l,
            None => false,
        }
    }

    pub open spec fn stops(&self, last: EvaluatedSolution<S>, list: VecDeque<T>, steps: int, without: int) -> bool {
        ||| self.spec_improver().outcome(last, list, None)
        ||| steps == step_cap(self.spec_iteration_limit())
        ||| steps > 0 && match self.spec_without_limit() {
            Some(l) => without >= l,
            None => false,
        }
        ||| steps > 0 && self.spec_time_limit() is Some
    }

    /// What [`TabuSearchSolver::run`] returns: after a run of `steps` steps that stops, a
    /// solution carrying the best value seen.
    pub open spec fn run_outcome(
        &self,
        initial_solution: S,
        result: EvaluatedSolution<S>,
        steps: u32,
    ) -> bool {
        &&& steps <= step_cap(self.spec_iteration_limit())
        &&& steps == 0 ==> result.sol() == initial_solution
        &&& exists|
            currents: Seq<EvaluatedSolution<S>>,
            lists: Seq<VecDeque<T>>,
            added: Seq<Vec<T>>,
            bests: Seq<Seq<BaseValue>>,
        |
            #[trigger] self.is_run(initial_solution, currents, lists, added, bests)
                && currents.len() == steps + 1 && result.val() == bests.last() && (exists|b: int|
                #[trigger] best_state(currents, bests, b) && pair_of(result) == pair_of(currents[b])) && self.stops(
                currents.last(),
                lists.last(),
                steps as int,
                steps_without_new_best(currents, bests),
            ) && (forall|k: int|
                1 <= k < steps ==> !#[trigger] self.reached_without_limit(currents, bests, k))
    }

    /// Runs the tabu search from `initial_solution`; returns the best solution seen and the
    /// number of steps taken.
    pub fn run(&self, initial_solution: S) -> (r: (EvaluatedSolution<S>, u32))
        where
            S: Clone,
        requires
            self.spec_improver().ready(),
            forall|s: S| #[trigger] self.spec_objective().evaluable(s),
            clones_faithfully::<S>(),
        ensures
            self.run_outcome(initial_solution, r.0, r.1),
    {
        let start_time = now();
        let objective: &Objective<S> = &*self.objective;
        proof {
            assert(objective == self.spec_objective());
        }
        let mut current = objective.evaluate(initial_solution);
        let mut best_solution_seen = current.clone();
        let ghost mut best_index: int = 0;
        let mut tabu_list: VecDeque<T> = VecDeque::new();
        let ghost mut currents: Seq<EvaluatedSolution<S>> = seq![current];
        let ghost mut lists: Seq<VecDeque<T>> = seq![tabu_list];
        let ghost mut added: Seq<Vec<T>> = Seq::empty();
        let ghost mut bests: Seq<Seq<BaseValue>> = seq![current.val()];
        proof {
            assert(lists[0]@ =~= Seq::<T>::empty());
        }
        let cap: u32 = match self.iteration_limit {
            Some(k) => if k == 0 {
                1
            } else {
                k
            },
            None => u32::MAX,
        };
        let mut steps: u32 = 0;
        let mut without_improvement: u32 = 0;
        loop
            invariant_except_break
                steps > 0 ==> !self.reached_without_limit(currents, bests, steps as int),
            invariant
                objective == self.spec_objective(),
                self.spec_improver().ready(),
                cap == step_cap(self.spec_iteration_limit()),
                steps <= cap,
                without_improvement <= steps,
                self.is_run(initial_solution, currents, lists, added, bests),
                currents.len() == steps + 1,
                currents.last() == current,
                lists.last() == tabu_list,
                bests.last() == best_solution_seen.val(),
                best_state(currents, bests, best_index),
                pair_of(best_solution_seen) == pair_of(currents[best_index]),
                clones_faithfully::<S>(),
                without_improvement == steps_without_new_best(currents, bests),
                forall|k: int| 1 <= k < steps ==> !#[trigger] self.reached_without_limit(currents, bests, k),
            ensures
                steps <= cap,
                self.is_run(initial_solution, currents, lists, added, bests),
                currents.len() == steps + 1,
                currents.last() == current,
                bests.last() == best_solution_seen.val(),
                best_state(currents, bests, best_index),
                pair_of(best_solution_seen) == pair_of(currents[best_index]),
                clones_faithfully::<S>(),
                self.stops(currents.last(), lists.last(), steps as int, steps_without_new_best(currents, bests)),
                forall|k: int| 1 <= k < steps ==> !#[trigger] self.reached_without_limit(currents, bests, k),
            decreases cap - steps,
        {
            if steps == cap {
                break;
            }
            match self.local_improver.improve(&current, &tabu_list) {
                None => {
                    break;
                },
                Some((new_solution, new_tabus)) => {
                    let ghost mut old_currents = currents;
                    let ghost mut old_bests = bests;
                    let ghost old_list = tabu_list;
                    let ghost tabus = new_tabus;
                    add_tabus(&mut tabu_list, new_tabus, self.tabu_list_size);
                    self.function_between_steps.call(
                        steps + 1,
                        &new_solution,
                        Some(&current),
                        objective,
                        Some(start_time),
                        self.time_limit,
                        self.iteration_limit,
                    );
                    let ghost old_best = best_solution_seen.val();
                    current = new_solution;
                    if current.is_better_than(&best_solution_seen) {
                        best_solution_seen = current.clone();
                        proof {
                            best_index = currents.len() as int;
                        }
                        without_improvement = 0;
                    } else {
                        without_improvement += 1;
                    }
                    proof {
                        let (oc, ol, oa, ob) = (currents, lists, added, bests);
                        old_currents = oc;
                        old_bests = ob;
                        currents = currents.push(current);
                        lists = lists.push(tabu_list);
                        added = added.push(tabus);
                        bests = bests.push(best_solution_seen.val());
                        if best_index < oc.len() {
                            assert(currents[best_index] == oc[best_index]);
                            assert(bests[best_index] == ob[best_index]);
                        }
                        assert forall|j: int| best_index <= j < bests.len() implies #[trigger] bests[j]
                            == bests[best_index] by {
                            if j < ob.len() {
                                assert(bests[j] == ob[j]);
                            }
                        }
                        assert(self.tabu_step(oc.last(), old_list, current, tabus, tabu_list, old_best, best_solution_seen.val()));
                        assert forall|k: int| 0 <= k < added.len() implies #[trigger] self.tabu_step(
                            currents[k],
                            lists[k],
                            currents[k + 1],
                            added[k],
                            lists[k + 1],
                            bests[k],
                            bests[k + 1],
                        ) by {
                            if k < oa.len() {
                                assert(currents[k] == oc[k] && currents[k + 1] == oc[k + 1]);
                                assert(lists[k] == ol[k] && lists[k + 1] == ol[k + 1]);
                                assert(added[k] == oa[k] && bests[k] == ob[k] && bests[k + 1] == ob[k + 1]);
                            }
                        }
                        assert forall|k: int| 0 <= k < lists.len() implies (#[trigger] lists[k]@).len() <= self.spec_tabu_list_size() by {
                            if k < ol.len() {
                                assert(lists[k] == ol[k]);
                            }
                        }
                        assert(currents.drop_last() =~= oc);
                        assert(bests.drop_last() =~= ob);
                        assert forall|k: int| 1 <= k < currents.len() - 1 implies #[trigger] self.reached_without_limit(
                            currents,
                            bests,
                            k,
                        ) == self.reached_without_limit(oc, ob, k) by {
                            assert(currents.take(k + 1) =~= oc.take(k + 1));
                            assert(bests.take(k + 1) =~= ob.take(k + 1));
                        }
                    }
                    let ghost previous_steps = steps as int;
                    steps += 1;
                    proof {
                        assert(currents.take(steps + 1) =~= currents);
                        assert(bests.take(steps + 1) =~= bests);
                        assert forall|k: int| 1 <= k < steps implies !#[trigger] self.reached_without_limit(
                            currents,
                            bests,
                            k,
                        ) by {
                            assert(k < currents.len() - 1);
                            assert(self.reached_without_limit(currents, bests, k)
                                == self.reached_without_limit(old_currents, old_bests, k));
                        }
                    }
                    match self.iteration_without_global_improvement_limit {
                        Some(limit) => {
                            if without_improvement >= limit {
                                break;
                            }
                        },
                        None => {},
                    }
                    proof {
                        assert(currents.take(steps + 1) == currents);
                        assert(bests.take(steps + 1) == bests);
                        assert(!self.reached_without_limit(currents, bests, steps as int));
                    }
                    match &self.time_limit {
                        Some(limit) => {
                            if limit_passed(&start_time, limit) {
                                break;
                            }
                        },
                        None => {},
                    }
                },
            }
        }
        if steps == 0 {
            (current, steps)
        } else {
            (best_solution_seen, steps)
        }
    }
}

/// The number of steps at the end of a run that did not bring a new best value.
pub open spec fn steps_without_new_best<S>(
    currents: Seq<EvaluatedSolution<S>>,
    bests: Seq<Seq<BaseValue>>,
) -> int
    decreases currents.len(),
{
    if currents.len() <= 1 || bests.len() < currents.len() {
        0
    } else if lex_lt(currents.last().val(), bests[currents.len() - 2]) {
        0
    } else {
        steps_without_new_best(currents.drop_last(), bests.take(currents.len() - 1)) + 1
    }
}

/// The concatenation of a sequence of tabu vectors.
pub open spec fn all_tabus<T>(added: Seq<Vec<T>>) -> Seq<T>
    decreases added.len(),
{
    if added.len() == 0 {
        Seq::empty()
    } else {
        all_tabus(added.drop_last()) + added.last()@
    }
}

proof fn lemma_last_n_append<T>(a: Seq<T>, b: Seq<T>, c: int)
    requires
        c >= 0,
    ensures
        last_n(last_n(a, c) + b, c) == last_n(a + b, c),
{
    if a.len() > c {
        let x = last_n(a, c) + b;
        let y = a + b;
        assert(last_n(x, c) =~= last_n(y, c)) by {
            if x.len() > c {
                assert forall|i: int| 0 <= i < c implies #[trigger] last_n(x, c)[i] == last_n(y, c)[i] by {
                    let ix = x.len() - c + i;
                    let iy = y.len() - c + i;
                    if iy < a.len() {
                        assert(ix < c);
                        assert(x[ix] == a.skip(a.len() - c)[ix]);
                    } else {
                        assert(x[ix] == b[iy - a.len()]);
                    }
                }
            }
        }
    } else {
        assert(last_n(a, c) == a);
    }
}

/// Across a whole run, the tabu list handed to the improver in step `k` holds the newest
/// `tabu_list_size` of all tabus added before it, oldest first, and never more than that.
pub proof fn lemma_tabu_lists_over_a_run<S, T, I: TabuImprover<S, T>, F: FunctionBetweenSteps<S>>(
    solver: &TabuSearchSolver<S, T, I, F>,
    initial_solution: S,
    currents: Seq<EvaluatedSolution<S>>,
    lists: Seq<VecDeque<T>>,
    added: Seq<Vec<T>>,
    bests: Seq<Seq<BaseValue>>,
    k: int,
)
    requires
        solver.is_run(initial_solution, currents, lists, added, bests),
        0 <= k < lists.len(),
    ensures
        lists[k]@ == last_n(all_tabus(added.take(k)), solver.spec_tabu_list_size() as int),
        lists[k]@.len() <= solver.spec_tabu_list_size(),
    decreases k,
{
    let c = solver.spec_tabu_list_size() as int;
    if k == 0 {
        assert(added.take(0) =~= Seq::<Vec<T>>::empty());
        assert(last_n(Seq::<T>::empty(), c) =~= Seq::<T>::empty());
    } else {
        lemma_tabu_lists_over_a_run(solver, initial_solution, currents, lists, added, bests, k - 1);
        let j = k - 1;
        assert(solver.tabu_step(
            currents[j],
            lists[j],
            currents[j + 1],
            added[j],
            lists[j + 1],
            bests[j],
            bests[j + 1],
        ));
        assert(added.take(k).drop_last() =~= added.take(k - 1));
        lemma_last_n_append(all_tabus(added.take(k - 1)), added[k - 1]@, c);
    }
}

impl<S: Clone, T, I: TabuImprover<S, T>, F: FunctionBetweenSteps<S>> Solver<S> for TabuSearchSolver<
    S,
    T,
    I,
    F,
> {
    open spec fn ready(&self) -> bool {
        &&& clones_faithfully::<S>()
        &&& self.spec_improver().ready()
        &&& forall|s: S| #[trigger] self.spec_objective().evaluable(s)
    }

    open spec fn solved(&self, initial_solution: S, result: EvaluatedSolution<S>) -> bool {
        exists|steps: u32| #[trigger] self.run_outcome(initial_solution, result, steps)
    }

    fn solve(&self, initial_solution: S) -> (r: EvaluatedSolution<S>) {
        let (r, steps) = self.run(initial_solution);
        assert(self.run_outcome(initial_solution, r, steps));
        r
    }
}

} // verus!
