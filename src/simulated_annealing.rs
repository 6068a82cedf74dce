//! Simulated annealing: accept the first neighbor whose acceptance probability beats a random
//! draw, cool the temperature after every accepted step that is not an improvement, and return
//! the best solution seen.
use crate::clock::{limit_passed, now};
use crate::neighborhood::{reversed, Neighborhood};
use crate::local_improver::pair_of;
use crate::objective::{clones_faithfully, EvaluatedSolution, Objective};
use crate::solver::best_state;
use crate::base_value::BaseValue;
use crate::objective_value::{lex_lt, ObjectiveValue};
use crate::solver::{step_cap, FunctionBetweenSteps, Silent, Solver};
use rand::rngs::StdRng;
use rand::Rng;
use rand::SeedableRng;
use std::sync::Arc;
use vstd::prelude::*;

verus! {

/// A temperature, in millionths; it should start in the magnitude of the objective values.
pub type Temperature = u64;

/// A probability, in millionths: `PROBABILITY_UNIT` is certainty.
pub type Probability = u32;

/// A cooling factor between zero and one, in millionths.
pub type ScalingFactor = u32;

/// The probability one, in millionths.
pub const PROBABILITY_UNIT: u32 = 1000000;

/// The probability with which a neighbor is accepted, given the current objective value, the
/// neighbor's objective value and the temperature. It should be one for an improvement and
/// fall with a growing difference and a falling temperature (typically e^(-d/T)).
pub trait AcceptanceProbabilityFunction {
    /// The acceptance probability of `candidate` from `current` at `temperature`, in millionths.
    spec fn acceptance(
        &self,
        current: ObjectiveValue,
        candidate: ObjectiveValue,
        temperature: Temperature,
    ) -> Probability;

    /// Returns the acceptance probability, in millionths.
    fn probability(
        &self,
        current: &ObjectiveValue,
        candidate: &ObjectiveValue,
        temperature: Temperature,
    ) -> (r: Probability)
        ensures
            r == self.acceptance(*current, *candidate, temperature),
    ;
}

/// The first position whose probability exceeds its draw, if any.
pub open spec fn first_accepted_index(probabilities: Seq<u32>, draws: Seq<u32>) -> Option<int>
    decreases probabilities.len(),
{
    if probabilities.len() == 0 || draws.len() == 0 {
        None
    } else if probabilities[0] > draws[0] {
        Some(0)
    } else {
        match first_accepted_index(probabilities.drop_first(), draws.drop_first()) {
            Some(i) => Some(i + 1),
            None => None,
        }
    }
}

/// The first position `i` with `probabilities[i] > draws[i]`, if any: the candidate that a
/// scan accepts when `draws` are its random numbers.
pub fn first_accepted(probabilities: &Vec<u32>, draws: &Vec<u32>) -> (r: Option<usize>)
    ensures
        match first_accepted_index(probabilities@, draws@) {
            Some(i) => r == Some(i as usize),
            None => r is None,
        },
{
    let mut i: usize = 0;
    proof {
        assert(probabilities@.skip(0) =~= probabilities@);
        assert(draws@.skip(0) =~= draws@);
        lemma_first_accepted_range(probabilities@, draws@);
    }
    while i < probabilities.len() && i < draws.len()
        invariant
            i <= probabilities@.len(),
            i <= draws@.len(),
            match first_accepted_index(probabilities@, draws@) {
                Some(j) => j >= i && first_accepted_index(
                    probabilities@.skip(i as int),
                    draws@.skip(i as int),
                ) == Some(j - i),
                None => first_accepted_index(probabilities@.skip(i as int), draws@.skip(i as int))
                    is None,
            },
        decreases probabilities@.len() - i,
    {
        proof {
            assert(probabilities@.skip(i as int).drop_first() =~= probabilities@.skip(i + 1));
            assert(draws@.skip(i as int).drop_first() =~= draws@.skip(i + 1));
            assert(probabilities@.skip(i as int)[0] == probabilities@[i as int]);
            assert(draws@.skip(i as int)[0] == draws@[i as int]);
            lemma_first_accepted_range(probabilities@.skip(i + 1), draws@.skip(i + 1));
        }
        if probabilities[i] > draws[i] {
            return Some(i);
        }
        i += 1;
    }
    None
}

/// The random number generator of the `rand` crate.
#[verifier::external_type_specification]
#[verifier::external_body]
pub struct ExStdRng(rand::rngs::StdRng);

/// Relies on rand's `SeedableRng::seed_from_u64`: a generator determined by `seed`.
#[verifier::external_body]
fn seeded_rng(seed: u64) -> (r: StdRng) {
    StdRng::seed_from_u64(seed)
}

/// Relies on rand's `SeedableRng::from_rng` with `OsRng`: a generator seeded by the operating
/// system, or `None` where the operating system gives no entropy.
#[verifier::external_body]
fn entropy_rng() -> (r: Option<StdRng>) {
    StdRng::from_rng(rand::rngs::OsRng).ok()
}

/// Relies on rand's `Rng::gen_range`: a number drawn from `0 .. bound`.
#[verifier::external_body]
fn draw_below(rng: &mut StdRng, bound: u32) -> (r: u32)
    requires
        bound > 0,
    ensures
        r < bound,
{
    rng.gen_range(0..bound)
}

/// The simulated annealing solver. Each step scans the neighborhood in order and accepts the
/// first neighbor whose acceptance probability exceeds a random draw from `[0, 1)`; after an
/// accepted step that is not a strict improvement the temperature is multiplied by the cooling
/// factor. It keeps the best solution seen and stops when a whole neighborhood is scanned
/// without acceptance, or when the time or iteration limit is reached.
#[verifier::reject_recursive_types(S)]
#[verifier::reject_recursive_types(N)]
pub struct SimulatedAnnealingSolver<
    S,
    N: Neighborhood<S> + ?Sized,
    A: AcceptanceProbabilityFunction,
    F: FunctionBetweenSteps<S>,
> {
    neighborhood: Arc<N>,
    objective: Arc<Objective<S>>,
    initial_temperature: Temperature,
    cooling_factor: ScalingFactor,
    acceptance_probability_function: A,
    function_between_steps: F,
    time_limit: Option<std::time::Duration>,
    iteration_limit: Option<u32>,
    random_seed: Option<u64>,
}

impl<S, N: Neighborhood<S> + ?Sized, A: AcceptanceProbabilityFunction> SimulatedAnnealingSolver<
    S,
    N,
    A,
    Silent,
> {
    /// A simulated annealing solver without limits and without reporting; `random_seed` makes
    /// the search reproducible.
    pub fn initialize(
        neighborhood: Arc<N>,
        objective: Arc<Objective<S>>,
        initial_temperature: Temperature,
        cooling_factor: ScalingFactor,
        acceptance_probability_function: A,
        random_seed: Option<u64>,
    ) -> (r: Self)
        requires
            cooling_factor <= PROBABILITY_UNIT,
        ensures
            r.wf(),
            r.spec_neighborhood() == &*neighborhood,
            r.spec_objective() == &*objective,
            r.spec_iteration_limit() is None,
    {
        SimulatedAnnealingSolver::with_options(
            neighborhood,
            objective,
            initial_temperature,
            cooling_factor,
            acceptance_probability_function,
            random_seed,
            Silent,
            None,
            None,
        )
    }
}

impl<
    S,
    N: Neighborhood<S> + ?Sized,
    A: AcceptanceProbabilityFunction,
    F: FunctionBetweenSteps<S>,
> SimulatedAnnealingSolver<S, N, A, F> {
    /// The neighborhood.
    pub closed spec fn spec_neighborhood(&self) -> &N {
        &*self.neighborhood
    }

    /// The objective.
    pub closed spec fn spec_objective(&self) -> &Objective<S> {
        &*self.objective
    }

    /// The iteration limit.
    pub closed spec fn spec_iteration_limit(&self) -> Option<u32> {
        self.iteration_limit
    }

    /// The initial temperature.
    pub closed spec fn spec_initial_temperature(&self) -> Temperature {
        self.initial_temperature
    }

    /// The cooling factor.
    pub closed spec fn spec_cooling_factor(&self) -> ScalingFactor {
        self.cooling_factor
    }

    /// The acceptance probability function.
    pub closed spec fn spec_acceptance(&self) -> &A {
        &self.acceptance_probability_function
    }

    /// The time limit.
    pub closed spec fn spec_time_limit(&self) -> Option<std::time::Duration> {
        self.time_limit
    }

    /// The cooling factor lies between zero and one.
    pub closed spec fn wf(&self) -> bool {
        self.cooling_factor <= PROBABILITY_UNIT
    }

    /// A simulated annealing solver with a reporting function, a time limit (checked after
    /// each step) and an iteration limit.
    pub fn with_options(
        neighborhood: Arc<N>,
        objective: Arc<Objective<S>>,
        initial_temperature: Temperature,
        cooling_factor: ScalingFactor,
        acceptance_probability_function: A,
        random_seed: Option<u64>,
        function_between_steps: F,
        time_limit: Option<std::time::Duration>,
        iteration_limit: Option<u32>,
    ) -> (r: Self)
        requires
            cooling_factor <= PROBABILITY_UNIT,
        ensures
            r.wf(),
            r.spec_neighborhood() == &*neighborhood,
            r.spec_objective() == &*objective,
            r.spec_iteration_limit() == iteration_limit,
            r.spec_time_limit() == time_limit,
            r.spec_initial_temperature() == initial_temperature,
            r.spec_cooling_factor() == cooling_factor,
            r.spec_acceptance() == &acceptance_probability_function,
    {
        SimulatedAnnealingSolver {
            neighborhood,
            objective,
            initial_temperature,
            cooling_factor,
            acceptance_probability_function,
            function_between_steps,
            time_limit,
            iteration_limit,
            random_seed,
        }
    }

    /// Whether scanning the neighbors of `current` at `temperature` in order, with the random
    /// numbers `draws`, gives `result`: the candidates are the evaluated neighbors, each gets
    /// its acceptance probability, and the first whose probability exceeds its draw is
    /// accepted; `None` where no neighbor is.
    pub open spec fn scan_outcome(
        &self,
        current: EvaluatedSolution<S>,
        temperature: Temperature,
        candidates: Seq<EvaluatedSolution<S>>,
        probabilities: Seq<u32>,
        draws: Seq<u32>,
        result: Option<EvaluatedSolution<S>>,
    ) -> bool {
        let ns = self.spec_neighborhood().neighbors(current.sol())@;
        &&& candidates.len() == probabilities.len()
        &&& draws.len() == probabilities.len()
        &&& probabilities.len() <= ns.len()
        &&& forall|j: int|
            0 <= j < candidates.len() ==> (#[trigger] candidates[j]).sol() == ns[j]
                && candidates[j].val() == self.spec_objective().value_of(ns[j])
                && probabilities[j] == self.spec_acceptance().acceptance(
                current.ov(),
                candidates[j].ov(),
                temperature,
            ) && draws[j] < PROBABILITY_UNIT
        &&& match result {
            Some(b) => probabilities.len() >= 1 && first_accepted_index(probabilities, draws)
                == Some(probabilities.len() - 1) && b == candidates.last(),
            None => probabilities.len() == ns.len() && first_accepted_index(probabilities, draws)
                is None,
        }
    }

    /// Whether some random numbers make the scan from `current` give `result`.
    pub open spec fn explored(
        &self,
        current: EvaluatedSolution<S>,
        temperature: Temperature,
        result: Option<EvaluatedSolution<S>>,
    ) -> bool {
        exists|candidates: Seq<EvaluatedSolution<S>>, probabilities: Seq<u32>, draws: Seq<u32>|
            #[trigger] self.scan_outcome(current, temperature, candidates, probabilities, draws, result)
    }

    /// Scans the neighbors of `current_solution` in order and accepts the first one whose
    /// acceptance probability exceeds a random draw, or returns `None`.
    fn explore_neighborhood(
        &self,
        current_solution: &EvaluatedSolution<S>,
        current_temperature: Temperature,
        rng: &mut StdRng,
    ) -> (r: Option<EvaluatedSolution<S>>)
        requires
            forall|s: S| #[trigger] self.spec_objective().evaluable(s),
        ensures
            self.explored(*current_solution, current_temperature, r),
    {
        let neighbors = self.neighborhood.neighbors_of(current_solution.solution());
        let ghost ns = neighbors@;
        let objective: &Objective<S> = &*self.objective;
        proof {
            assert(objective == self.spec_objective());
        }
        let mut rest = reversed(neighbors);
        let total = rest.len();
        let mut k: usize = 0;
        let ghost mut candidates: Seq<EvaluatedSolution<S>> = Seq::empty();
        let ghost mut probabilities: Seq<u32> = Seq::empty();
        let ghost mut draws: Seq<u32> = Seq::empty();
        while rest.len() > 0
            invariant
                rest@.len() + k == ns.len(),
                ns.len() == total,
                ns == self.spec_neighborhood().neighbors(current_solution.sol())@,
                objective == self.spec_objective(),
                forall|j: int| 0 <= j < rest@.len() ==> #[trigger] rest@[j] == ns[ns.len() - 1 - j],
                forall|s: S| #[trigger] objective.evaluable(s),
                candidates.len() == k,
                self.scan_outcome(*current_solution, current_temperature, candidates, probabilities, draws, None) || k < ns.len(),
                candidates.len() == probabilities.len() && draws.len() == probabilities.len(),
                forall|j: int|
                    0 <= j < candidates.len() ==> (#[trigger] candidates[j]).sol() == ns[j]
                        && candidates[j].val() == self.spec_objective().value_of(ns[j])
                        && probabilities[j] == self.spec_acceptance().acceptance(
                        current_solution.ov(),
                        candidates[j].ov(),
                        current_temperature,
                    ) && draws[j] < PROBABILITY_UNIT,
                first_accepted_index(probabilities, draws) is None,
            decreases rest@.len(),
        {
            let n = rest.pop().unwrap();
            assert(n == ns[k as int]);
            let neighbor_solution = objective.evaluate(n);
            let acceptance_probability = self.acceptance_probability_function.probability(
                current_solution.objective_value(),
                neighbor_solution.objective_value(),
                current_temperature,
            );
            let random_number = draw_below(rng, PROBABILITY_UNIT);
            proof {
                let (oc, op, od) = (candidates, probabilities, draws);
                candidates = candidates.push(neighbor_solution);
                probabilities = probabilities.push(acceptance_probability);
                draws = draws.push(random_number);
                lemma_first_accepted_push(op, od, acceptance_probability, random_number);
                assert forall|j: int| 0 <= j < candidates.len() implies (#[trigger] candidates[j]).sol() == ns[j]
                    && candidates[j].val() == self.spec_objective().value_of(ns[j])
                    && probabilities[j] == self.spec_acceptance().acceptance(
                    current_solution.ov(),
                    candidates[j].ov(),
                    current_temperature,
                ) && draws[j] < PROBABILITY_UNIT by {
                    if j < oc.len() {
                        assert(candidates[j] == oc[j] && probabilities[j] == op[j] && draws[j] == od[j]);
                    }
                }
            }
            if acceptance_probability > random_number {
                proof {
                    assert(self.scan_outcome(
                        *current_solution,
                        current_temperature,
                        candidates,
                        probabilities,
                        draws,
                        Some(neighbor_solution),
                    ));
                }
                return Some(neighbor_solution);
            }
            k += 1;
        }
        proof {
            assert(self.scan_outcome(*current_solution, current_temperature, candidates, probabilities, draws, None));
        }
        None
    }

    /// One step of a run: from `current` at `temperature` the scan accepts `next` for some
    /// random numbers; the temperature cools where `next` is not strictly better than
    /// `current`; the best value becomes `next`'s where that is strictly better.
    pub open spec fn annealing_step(
        &self,
        current: EvaluatedSolution<S>,
        temperature: Temperature,
        best: Seq<BaseValue>,
        next: EvaluatedSolution<S>,
        next_temperature: Temperature,
        next_best: Seq<BaseValue>,
    ) -> bool {
        &&& self.explored(current, temperature, Some(next))
        &&& next_temperature == if lex_lt(next.val(), current.val()) {
            temperature
        } else {
            cooled(temperature, self.spec_cooling_factor())
        }
        &&& next_best == if lex_lt(next.val(), best) {
            next.val()
        } else {
            best
        }
    }

    /// Whether the sequences are a run from `initial_solution`: states, temperatures and best
    /// values, starting at the evaluated initial solution, the initial temperature and the
    /// initial value.
    pub open spec fn is_run(
        &self,
        initial_solution: S,
        currents: Seq<EvaluatedSolution<S>>,
        temperatures: Seq<Temperature>,
        bests: Seq<Seq<BaseValue>>,
    ) -> bool {
        &&& currents.len() >= 1
        &&& temperatures.len() == currents.len()
        &&& bests.len() == currents.len()
        &&& currents[0].sol() == initial_solution
        &&& currents[0].val() == self.spec_objective().value_of(initial_solution)
        &&& temperatures[0] == self.spec_initial_temperature()
        &&& bests[0] == self.spec_objective().value_of(initial_solution)
        &&& forall|k: int|
            0 <= k < currents.len() - 1 ==> #[trigger] self.annealing_step(
                currents[k],
                temperatures[k],
                bests[k],
                currents[k + 1],
                temperatures[k + 1],
                bests[k + 1],
            )
    }

    /// What [`SimulatedAnnealingSolver::run`] returns: after a run of `steps` steps that stops
    /// (a scan accepts nothing, the step cap, or after a step with a time limit set), a solution
    /// with the best value seen; without a step, the evaluated initial solution itself. Where
    /// the initial solution has no neighbor, no step is taken.
    pub open spec fn run_outcome(
        &self,
        initial_solution: S,
        result: EvaluatedSolution<S>,
        steps: u32,
    ) -> bool {
        &&& steps <= step_cap(self.spec_iteration_limit())
        &&& steps == 0 ==> result.sol() == initial_solution
        &&& self.spec_neighborhood().neighbors(initial_solution)@.len() == 0 ==> steps == 0
        &&& exists|
            currents: Seq<EvaluatedSolution<S>>,
            temperatures: Seq<Temperature>,
            bests: Seq<Seq<BaseValue>>,
        |
            #[trigger] self.is_run(initial_solution, currents, temperatures, bests)
                && currents.len() == steps + 1 && result.val() == bests.last() && (exists|b: int|
                #[trigger] best_state(currents, bests, b) && pair_of(result) == pair_of(currents[b])) && (self.explored(
                currents.last(),
                temperatures.last(),
                None,
            ) || steps == step_cap(self.spec_iteration_limit()) || steps > 0
                && self.spec_time_limit() is Some)
    }

    /// Runs the search from `initial_solution`; returns the best solution seen and the number
    /// of accepted steps.
    pub fn run(&self, initial_solution: S) -> (r: (EvaluatedSolution<S>, u32))
        where
            S: Clone,
        requires
            self.wf(),
            forall|s: S| #[trigger] self.spec_objective().evaluable(s),
            clones_faithfully::<S>(),
        ensures
            self.run_outcome(initial_solution, r.0, r.1),
    {
        let start_time = now();
        let objective: &Objective<S> = &*self.objective;
        proof {
            assert(objective == self.spec_objective());
        }
        let mut current = objective.evaluate(initial_solution);
        let mut best_solution_seen = current.clone();
        let ghost mut best_index: int = 0;
        let mut current_temperature: Temperature = self.initial_temperature;
        let mut rng = match self.random_seed {
            Some(seed) => seeded_rng(seed),
            None => match entropy_rng() {
                Some(rng) => rng,
                None => seeded_rng(0),
            },
        };
        let ghost mut currents: Seq<EvaluatedSolution<S>> = seq![current];
        let ghost mut temperatures: Seq<Temperature> = seq![current_temperature];
        let ghost mut bests: Seq<Seq<BaseValue>> = seq![current.val()];
        let cap: u32 = match self.iteration_limit {
            Some(k) => if k == 0 {
                1
            } else {
                k
            },
            None => u32::MAX,
        };
        let mut steps: u32 = 0;
        loop
            invariant
                objective == self.spec_objective(),
                self.wf(),
                forall|s: S| #[trigger] objective.evaluable(s),
                cap == step_cap(self.spec_iteration_limit()),
                steps <= cap,
                self.is_run(initial_solution, currents, temperatures, bests),
                currents.len() == steps + 1,
                currents.last() == current,
                temperatures.last() == current_temperature,
                bests.last() == best_solution_seen.val(),
                best_state(currents, bests, best_index),
                pair_of(best_solution_seen) == pair_of(currents[best_index]),
                clones_faithfully::<S>(),
            ensures
                steps <= cap,
                self.is_run(initial_solution, currents, temperatures, bests),
                currents.len() == steps + 1,
                currents.last() == current,
                bests.last() == best_solution_seen.val(),
                best_state(currents, bests, best_index),
                pair_of(best_solution_seen) == pair_of(currents[best_index]),
                clones_faithfully::<S>(),
                self.explored(currents.last(), temperatures.last(), None) || steps == cap
                    || steps > 0 && self.spec_time_limit() is Some,
            decreases cap - steps,
        {
            if steps == cap {
                break;
            }
            match self.explore_neighborhood(&current, current_temperature, &mut rng) {
                None => {
                    break;
                },
                Some(new_solution) => {
                    self.function_between_steps.call(
                        steps + 1,
                        &new_solution,
                        Some(&current),
                        objective,
                        Some(start_time),
                        self.time_limit,
                        self.iteration_limit,
                    );
                    let ghost old_temperature = current_temperature;
                    let ghost old_best = best_solution_seen.val();
                    if !new_solution.is_better_than(&current) {
                        current_temperature = cool(current_temperature, self.cooling_factor);
                    }
                    current = new_solution;
                    if current.is_better_than(&best_solution_seen) {
                        best_solution_seen = current.clone();
                        proof {
                            best_index = currents.len() as int;
                        }
                    }
                    proof {
                        let (oc, ot, ob) = (currents, temperatures, bests);
                        currents = currents.push(current);
                        temperatures = temperatures.push(current_temperature);
                        bests = bests.push(best_solution_seen.val());
                        if best_index < oc.len() {
                            assert(currents[best_index] == oc[best_index]);
                            assert(bests[best_index] == ob[best_index]);
                        }
                        assert forall|j: int| best_index <= j < bests.len() implies #[trigger] bests[j]
                            == bests[best_index] by {
                            if j < ob.len() {
                                assert(bests[j] == ob[j]);
                            }
                        }
                        assert(self.annealing_step(oc.last(), old_temperature, old_best, current, current_temperature, best_solution_seen.val()));
                        assert forall|k: int| 0 <= k < currents.len() - 1 implies #[trigger] self.annealing_step(
                            currents[k],
                            temperatures[k],
                            bests[k],
                            currents[k + 1],
                            temperatures[k + 1],
                            bests[k + 1],
                        ) by {
                            if k < oc.len() - 1 {
                                assert(currents[k] == oc[k] && currents[k + 1] == oc[k + 1]);
                                assert(temperatures[k] == ot[k] && temperatures[k + 1] == ot[k + 1]);
                                assert(bests[k] == ob[k] && bests[k + 1] == ob[k + 1]);
                            }
                        }
                    }
                    steps += 1;
                    match &self.time_limit {
                        Some(limit) => {
                            if limit_passed(&start_time, limit) {
                                break;
                            }
                        },
                        None => {},
                    }
                },
            }
        }
        proof {
            if self.spec_neighborhood().neighbors(initial_solution)@.len() == 0 && steps > 0 {
                assert(self.annealing_step(currents[0], temperatures[0], bests[0], currents[1], temperatures[1], bests[1]));
                let (c, p, d) = choose|c: Seq<EvaluatedSolution<S>>, p: Seq<u32>, d: Seq<u32>|
                    #[trigger] self.scan_outcome(currents[0], temperatures[0], c, p, d, Some(currents[1]));
                assert(p.len() <= 0);
            }
        }
        if steps == 0 {
            (current, steps)
        } else {
            (best_solution_seen, steps)
        }
    }
}

/// The temperature multiplied by the cooling factor (both in millionths), rounded down.
pub open spec fn cooled(temperature: Temperature, cooling_factor: ScalingFactor) -> Temperature {
    ((temperature as int * cooling_factor as int) / PROBABILITY_UNIT as int) as Temperature
}

proof fn lemma_first_accepted_push(probabilities: Seq<u32>, draws: Seq<u32>, p: u32, d: u32)
    requires
        probabilities.len() == draws.len(),
        first_accepted_index(probabilities, draws) is None,
    ensures
        first_accepted_index(probabilities.push(p), draws.push(d)) == if p > d {
            Some(probabilities.len() as int)
        } else {
            None
        },
    decreases probabilities.len(),
{
    if probabilities.len() > 0 {
        assert(probabilities.push(p).drop_first() =~= probabilities.drop_first().push(p));
        assert(draws.push(d).drop_first() =~= draws.drop_first().push(d));
        assert(probabilities.push(p)[0] == probabilities[0] && draws.push(d)[0] == draws[0]);
        assert(!(probabilities[0] > draws[0]));
        assert(first_accepted_index(probabilities.drop_first(), draws.drop_first()) is None);
        lemma_first_accepted_push(probabilities.drop_first(), draws.drop_first(), p, d);
        let rest = first_accepted_index(probabilities.drop_first().push(p), draws.drop_first().push(d));
        assert(first_accepted_index(probabilities.push(p), draws.push(d)) == match rest {
            Some(i) => Some(i + 1),
            None => None,
        });
    } else {
        assert(probabilities.push(p).drop_first() =~= Seq::<u32>::empty());
        assert(draws.push(d).drop_first() =~= Seq::<u32>::empty());
        assert(probabilities.push(p)[0] == p && draws.push(d)[0] == d);
        assert(first_accepted_index(Seq::<u32>::empty(), Seq::<u32>::empty()) is None);
        assert(first_accepted_index(probabilities.push(p), draws.push(d)) == if p > d {
            Some(0int)
        } else {
            match first_accepted_index(Seq::<u32>::empty(), Seq::<u32>::empty()) {
                Some(i) => Some(i + 1),
                None => None,
            }
        });
    }
}

proof fn lemma_first_accepted_range(probabilities: Seq<u32>, draws: Seq<u32>)
    ensures
        match first_accepted_index(probabilities, draws) {
            Some(i) => 0 <= i < probabilities.len(),
            None => true,
        },
    decreases probabilities.len(),
{
    if probabilities.len() > 0 && draws.len() > 0 {
        lemma_first_accepted_range(probabilities.drop_first(), draws.drop_first());
    }
}

/// The temperature multiplied by the cooling factor (both in millionths), rounded down.
pub fn cool(temperature: Temperature, cooling_factor: ScalingFactor) -> (r: Temperature)
    requires
        cooling_factor <= PROBABILITY_UNIT,
    ensures
        r == (temperature as int * cooling_factor as int) / PROBABILITY_UNIT as int,
        r <= temperature,
{
    proof {
        assert(temperature as int * cooling_factor as int <= temperature as int * 1000000)
            by (nonlinear_arith)
            requires
                cooling_factor <= 1000000,
        ;
        assert((temperature as int * cooling_factor as int) / 1000000 <= temperature as int)
            by (nonlinear_arith)
            requires
                0 <= temperature as int * cooling_factor as int <= temperature as int * 1000000,
        ;
    }
    let product: u128 = (temperature as u128) * (cooling_factor as u128);
    (product / (PROBABILITY_UNIT as u128)) as u64
}

impl<
    S: Clone,
    N: Neighborhood<S> + ?Sized,
    A: AcceptanceProbabilityFunction,
    F: FunctionBetweenSteps<S>,
> Solver<S> for SimulatedAnnealingSolver<S, N, A, F> {
    open spec fn ready(&self) -> bool {
        &&& clones_faithfully::<S>()
        &&& self.wf()
        &&& forall|s: S| #[trigger] self.spec_objective().evaluable(s)
    }

    open spec fn solved(&self, initial_solution: S, result: EvaluatedSolution<S>) -> bool {
        exists|steps: u32| #[trigger] self.run_outcome(initial_solution, result, steps)
    }

    fn solve(&self, initial_solution: S) -> (r: EvaluatedSolution<S>) {
        let (r, steps) = self.run(initial_solution);
        assert(self.run_outcome(initial_solution, r, steps));
        r
    }
}

} // verus!
