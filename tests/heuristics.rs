use rapid_solve::base_value::BaseValue;
use rapid_solve::local_improver::{LocalImprover, Minimizer, TakeFirst, TakeFirstRecursion};
use rapid_solve::neighborhood::{Neighborhood, TabuNeighborhood};
use rapid_solve::objective::{EvaluatedSolution, Indicator, Objective};
use rapid_solve::objective_value::ObjectiveValue;
use rapid_solve::parallel_solvers::{ParallelLocalSearchSolver, ParallelTabuSearchSolver};
use rapid_solve::parallel::{ParallelMinimizer, ParallelTabuMinimizer, TakeAnyParallelRecursion};
use rapid_solve::simulated_annealing::{
    first_accepted, AcceptanceProbabilityFunction, SimulatedAnnealingSolver,
};
use rapid_solve::solver::{LocalSearchSolver, Silent, Solver};
use rapid_solve::tabu_search::{add_tabus, TabuImprover, TabuMinimizer, TabuSearchSolver};
use rapid_solve::threshold_accepting::ThresholdAcceptingSolver;
use std::collections::VecDeque;
use std::sync::Arc;

// ---------- the permutation example ----------

#[derive(Clone, Debug, PartialEq)]
struct Solution(Vec<i64>);

impl Solution {
    fn change_entry(&self, index: usize, new_value: i64) -> Self {
        let mut new_values = self.0.clone();
        new_values[index] = new_value;
        Solution(new_values)
    }

    fn swap(&self, index1: usize, index2: usize) -> Self {
        let mut new_values = self.0.clone();
        new_values.swap(index1, index2);
        Solution(new_values)
    }
}

struct PermutationViolation;

impl Indicator<Solution> for PermutationViolation {
    fn value(&self, solution: Solution) -> BaseValue {
        let violation: i64 = (0..solution.0.len())
            .map(|i| (solution.0.iter().filter(|&n| *n == i as i64).count() as i64 - 1).abs())
            .sum();
        BaseValue::Integer(violation)
    }

    fn evaluate(&self, solution: &Solution) -> BaseValue {
        self.value(solution.clone())
    }

    fn name(&self) -> String {
        String::from("PermutationViolation")
    }
}

struct SquaredDifference;

impl Indicator<Solution> for SquaredDifference {
    fn value(&self, solution: Solution) -> BaseValue {
        let squared_diff: i64 = (0..solution.0.len())
            .map(|i| (solution.0[i] - solution.0[(i + 1) % solution.0.len()]).pow(2))
            .sum();
        BaseValue::Integer(squared_diff)
    }

    fn evaluate(&self, solution: &Solution) -> BaseValue {
        self.value(solution.clone())
    }

    fn name(&self) -> String {
        String::from("SquaredDifference")
    }
}

fn build_objective() -> Objective<Solution> {
    Objective::new_single_indicator_per_level(vec![
        Box::new(PermutationViolation),
        Box::new(SquaredDifference),
    ])
}

struct ChangeEntryThenSwapNeighborhood;

impl Neighborhood<Solution> for ChangeEntryThenSwapNeighborhood {
    fn neighbors(&self, solution: Solution) -> Vec<Solution> {
        let mut result = Vec::new();
        for i in 0..solution.0.len() {
            for new_value in 0..10 {
                result.push(solution.change_entry(i, new_value));
            }
        }
        for i in 0..solution.0.len() {
            for j in 0..solution.0.len() {
                result.push(solution.swap(i, j));
            }
        }
        result
    }

    fn neighbors_of(&self, current_solution: &Solution) -> Vec<Solution> {
        self.neighbors(current_solution.clone())
    }
}

#[test]
fn local_search_finds_known_local_optimum() {
    let objective = Arc::new(build_objective());
    let neighborhood = Arc::new(ChangeEntryThenSwapNeighborhood);
    let solver = LocalSearchSolver::initialize(neighborhood, objective);
    let evaluated_local_minimum = solver.solve(Solution(vec![0; 10]));
    assert_eq!(
        *evaluated_local_minimum.objective_value().as_vec(),
        vec![BaseValue::Integer(0), BaseValue::Integer(36)]
    );
    assert_eq!(
        evaluated_local_minimum.solution().0,
        vec![1, 0, 2, 4, 5, 7, 9, 8, 6, 3]
    );
}

// ---------- a small integer problem ----------

/// Distance of an integer to a set of wells: lower near 0 and near 10 (deeper there).
struct Landscape;

fn landscape(x: i64) -> i64 {
    match x {
        0 => 3,
        1 => 2,
        2 => 4,
        3 => 5,
        4 => 1,
        5 => 0,
        _ => 9,
    }
}

impl Indicator<i64> for Landscape {
    fn value(&self, solution: i64) -> BaseValue {
        BaseValue::Integer(landscape(solution))
    }

    fn evaluate(&self, solution: &i64) -> BaseValue {
        self.value(*solution)
    }

    fn name(&self) -> String {
        String::from("Landscape")
    }
}

/// Neighbors: one step left and right, within 0..=5.
struct Steps;

impl Neighborhood<i64> for Steps {
    fn neighbors(&self, solution: i64) -> Vec<i64> {
        let mut r = Vec::new();
        if solution > 0 {
            r.push(solution - 1);
        }
        if solution < 5 {
            r.push(solution + 1);
        }
        r
    }

    fn neighbors_of(&self, current_solution: &i64) -> Vec<i64> {
        self.neighbors(*current_solution)
    }
}

/// Neighbors: all values 0..=5 except the solution itself.
struct Everything;

impl Neighborhood<i64> for Everything {
    fn neighbors(&self, solution: i64) -> Vec<i64> {
        (0..=5).filter(|&x| x != solution).collect()
    }

    fn neighbors_of(&self, current_solution: &i64) -> Vec<i64> {
        self.neighbors(*current_solution)
    }
}

/// No neighbors at all.
struct Nothing;

impl Neighborhood<i64> for Nothing {
    fn neighbors(&self, _solution: i64) -> Vec<i64> {
        Vec::new()
    }

    fn neighbors_of(&self, current_solution: &i64) -> Vec<i64> {
        self.neighbors(*current_solution)
    }
}

fn landscape_objective() -> Arc<Objective<i64>> {
    Arc::new(Objective::new_single_indicator(Box::new(Landscape)))
}

fn value_of(e: &EvaluatedSolution<i64>) -> i64 {
    e.objective_value().as_vec()[0].unwrap_integer()
}

#[test]
fn minimizer_returns_best_strictly_better_neighbor() {
    let objective = landscape_objective();
    let minimizer = Minimizer::new(Arc::new(Everything), objective.clone());
    let start = objective.evaluate(2);
    let best = minimizer.improve(&start).unwrap();
    assert_eq!(*best.solution(), 5);
    assert_eq!(value_of(&best), 0);
    assert!(best.is_better_than(&start));
    let optimum = objective.evaluate(5);
    assert!(minimizer.improve(&optimum).is_none());
}

#[test]
fn minimizer_on_empty_neighborhood_finds_nothing() {
    let objective = landscape_objective();
    let minimizer = Minimizer::new(Arc::new(Nothing), objective.clone());
    assert!(minimizer.improve(&objective.evaluate(3)).is_none());
}

#[test]
fn take_first_takes_first_improvement_in_order() {
    let objective = landscape_objective();
    let take_first = TakeFirst::new(Arc::new(Everything), objective.clone());
    let start = objective.evaluate(3);
    let first = take_first.improve(&start).unwrap();
    assert_eq!(*first.solution(), 0);
    assert!(take_first.improve(&objective.evaluate(5)).is_none());
}

#[test]
fn take_first_recursion_without_depth_agrees_with_minimizer() {
    let objective = landscape_objective();
    let minimizer = Minimizer::new(Arc::new(Steps), objective.clone());
    let recursion = TakeFirstRecursion::new(0, 3, Arc::new(Steps), objective.clone());
    for x in 0..=5 {
        let start = objective.evaluate(x);
        assert_eq!(
            minimizer.improve(&start).is_some(),
            recursion.improve(&start).is_some(),
            "start {}",
            x
        );
    }
}

#[test]
fn take_first_recursion_escapes_a_local_optimum() {
    let objective = landscape_objective();
    // 1 is a local optimum of the step neighborhood (2 left, 4 right); two steps reach 3 and 0.
    let minimizer = Minimizer::new(Arc::new(Steps), objective.clone());
    let start = objective.evaluate(1);
    assert!(minimizer.improve(&start).is_none());
    let recursion = TakeFirstRecursion::new(3, 2, Arc::new(Steps), objective.clone());
    let found = recursion.improve(&start).unwrap();
    assert!(found.is_better_than(&start));
    assert_eq!(*found.solution(), 4);
}

#[test]
fn take_any_parallel_recursion_finds_the_single_improvement() {
    let objective = landscape_objective();
    let improver = TakeAnyParallelRecursion::new(2, None, Arc::new(Everything), objective.clone());
    // From 4 (value 1) only 5 (value 0) is better.
    let start = objective.evaluate(4);
    for _ in 0..50 {
        let found = improver.improve(&start).unwrap();
        assert_eq!(value_of(&found), 0);
        assert_eq!(*found.solution(), 5);
    }
    assert!(improver.improve(&objective.evaluate(5)).is_none());
}

#[test]
fn take_any_parallel_recursion_recurses() {
    let objective = landscape_objective();
    let improver = TakeAnyParallelRecursion::new(3, Some(2), Arc::new(Steps), objective.clone());
    let start = objective.evaluate(1);
    let found = improver.improve(&start).unwrap();
    assert!(found.is_better_than(&start));
    let no_depth = TakeAnyParallelRecursion::new(0, Some(2), Arc::new(Steps), objective.clone());
    assert!(no_depth.improve(&start).is_none());
}

#[test]
fn parallel_minimizer_finds_unique_best() {
    let objective = landscape_objective();
    let minimizer = ParallelMinimizer::new(Arc::new(Everything), objective.clone());
    let start = objective.evaluate(3);
    let best = minimizer.improve(&start).unwrap();
    assert_eq!(*best.solution(), 5);
    assert!(minimizer.improve(&objective.evaluate(5)).is_none());
}

#[test]
fn local_search_with_steps_stops_at_local_optimum() {
    let objective = landscape_objective();
    let solver = LocalSearchSolver::initialize(Arc::new(Steps), objective.clone());
    let (result, steps) = solver.run(3);
    assert_eq!(*result.solution(), 5);
    assert_eq!(steps, 2);
    let (result, steps) = solver.run(0);
    assert_eq!(*result.solution(), 1);
    assert_eq!(steps, 1);
}

#[test]
fn local_search_respects_iteration_limit() {
    let objective = landscape_objective();
    let improver = Minimizer::new(Arc::new(Steps), objective.clone());
    let solver = LocalSearchSolver::with_options(objective.clone(), improver, Silent, None, Some(1));
    let (result, steps) = solver.run(3);
    assert_eq!(steps, 1);
    assert_eq!(*result.solution(), 4);
}

#[test]
fn rotated_neighbors() {
    let n = Everything;
    assert_eq!(n.neighbors_of_rotated(&0, 2), vec![3, 4, 5, 1, 2]);
    assert_eq!(n.neighbors_of_rotated(&0, 0), vec![1, 2, 3, 4, 5]);
    assert_eq!(n.neighbors_of_rotated(&0, 9), vec![1, 2, 3, 4, 5]);
}

// ---------- tabu search ----------

/// Moves one step; the tabu of a move is the position left; tabu positions are not offered.
struct TabuSteps;

impl TabuNeighborhood<i64, i64> for TabuSteps {
    fn neighbors(&self, solution: i64, tabu_list: VecDeque<i64>) -> Vec<(i64, Vec<i64>)> {
        let mut r = Vec::new();
        for next in [solution - 1, solution + 1] {
            if (0..=5).contains(&next) && !tabu_list.contains(&next) {
                r.push((next, vec![solution]));
            }
        }
        r
    }

    fn neighbors_of(&self, solution: &i64, tabu_list: &VecDeque<i64>) -> Vec<(i64, Vec<i64>)> {
        self.neighbors(*solution, tabu_list.clone())
    }
}

#[test]
fn tabu_list_keeps_newest_within_capacity() {
    let mut list: VecDeque<i64> = VecDeque::new();
    add_tabus(&mut list, vec![1, 2], 3);
    assert_eq!(list, VecDeque::from(vec![1, 2]));
    add_tabus(&mut list, vec![3, 4], 3);
    assert_eq!(list, VecDeque::from(vec![2, 3, 4]));
    add_tabus(&mut list, vec![5, 6, 7, 8], 3);
    assert_eq!(list, VecDeque::from(vec![6, 7, 8]));
    add_tabus(&mut list, vec![9], 0);
    assert!(list.is_empty());
}

#[test]
fn tabu_minimizer_moves_even_to_worse_neighbors() {
    let objective = landscape_objective();
    let improver = TabuMinimizer::new(Arc::new(TabuSteps), objective.clone());
    let start = objective.evaluate(5);
    let (next, tabus) = improver.improve(&start, &VecDeque::new()).unwrap();
    assert_eq!(*next.solution(), 4);
    assert_eq!(tabus, vec![5]);
    let none = improver.improve(&objective.evaluate(0), &VecDeque::from(vec![1]));
    assert!(none.is_none());
    let parallel = ParallelTabuMinimizer::new(Arc::new(TabuSteps), objective.clone());
    let (next, _) = parallel.improve(&start, &VecDeque::new()).unwrap();
    assert_eq!(*next.solution(), 4);
}

#[test]
fn tabu_search_escapes_local_optimum_and_returns_best_seen() {
    let objective = landscape_objective();
    let solver = TabuSearchSolver::initialize(Arc::new(TabuSteps), objective.clone(), 2, 6);
    let result = solver.solve(3);
    assert_eq!(*result.solution(), 5);
    assert_eq!(value_of(&result), 0);
}

// ---------- threshold accepting and simulated annealing ----------

struct AlwaysAccept;

impl AcceptanceProbabilityFunction for AlwaysAccept {
    fn acceptance(&self, _current: ObjectiveValue, _candidate: ObjectiveValue, _t: u64) -> u32 {
        1_000_000
    }

    fn probability(&self, current: &ObjectiveValue, candidate: &ObjectiveValue, t: u64) -> u32 {
        self.acceptance(current.clone(), candidate.clone(), t)
    }
}

struct NeverAccept;

impl AcceptanceProbabilityFunction for NeverAccept {
    fn acceptance(&self, _current: ObjectiveValue, _candidate: ObjectiveValue, _t: u64) -> u32 {
        0
    }

    fn probability(&self, current: &ObjectiveValue, candidate: &ObjectiveValue, t: u64) -> u32 {
        self.acceptance(current.clone(), candidate.clone(), t)
    }
}

#[test]
fn first_accepted_is_the_first_probability_above_its_draw() {
    assert_eq!(first_accepted(&vec![10, 50, 90], &vec![20, 40, 10]), Some(1));
    assert_eq!(first_accepted(&vec![10, 30], &vec![20, 40]), None);
    assert_eq!(first_accepted(&vec![], &vec![]), None);
    assert_eq!(first_accepted(&vec![1_000_000], &vec![999_999]), Some(0));
}

#[test]
fn tabu_search_with_empty_tabu_list_stops_without_new_best() {
    let objective = landscape_objective();
    let solver = TabuSearchSolver::initialize(Arc::new(TabuSteps), objective.clone(), 0, 3);
    // 2 -> 1 (new best, value 2), 1 -> 0, 0 -> 1, 1 -> 0: three steps without a new best.
    let (result, steps) = solver.run(2);
    assert_eq!(steps, 4);
    assert_eq!(value_of(&result), 2);
    assert_eq!(*result.solution(), 1);
}

#[test]
fn threshold_accepting_with_empty_neighborhood_returns_initial() {
    let objective = landscape_objective();
    let threshold = ObjectiveValue::new(vec![BaseValue::Integer(3)]);
    let solver = ThresholdAcceptingSolver::initialize(Arc::new(Nothing), objective.clone(), threshold, 900_000);
    let (result, steps) = solver.run(2);
    assert_eq!(steps, 0);
    assert_eq!(*result.solution(), 2);
    assert_eq!(value_of(&result), 4);
}

#[test]
fn simulated_annealing_with_empty_neighborhood_returns_initial() {
    let objective = landscape_objective();
    let solver = SimulatedAnnealingSolver::initialize(
        Arc::new(Nothing),
        objective.clone(),
        1_000_000,
        900_000,
        AlwaysAccept,
        Some(7),
    );
    let (result, steps) = solver.run(2);
    assert_eq!(steps, 0);
    assert_eq!(*result.solution(), 2);
}

#[test]
fn threshold_accepting_accepts_worse_moves_while_the_threshold_allows() {
    let objective = landscape_objective();
    let threshold = ObjectiveValue::new(vec![BaseValue::Integer(4)]);
    let solver = ThresholdAcceptingSolver::initialize(Arc::new(Steps), objective.clone(), threshold, 500_000);
    // 1 -> 0 (threshold 4 -> 2), 0 -> 1, 1 -> 0 (threshold 2 -> 1), 0 -> 1, then nothing is
    // below 2 + 1.
    let (result, steps) = solver.run(1);
    assert_eq!(steps, 4);
    assert_eq!(*result.solution(), 1);
    assert_eq!(value_of(&result), 2);
}

#[test]
fn simulated_annealing_that_never_accepts_stays() {
    let objective = landscape_objective();
    let solver = SimulatedAnnealingSolver::initialize(
        Arc::new(Steps),
        objective.clone(),
        1_000_000,
        900_000,
        NeverAccept,
        None,
    );
    let (result, steps) = solver.run(3);
    assert_eq!(steps, 0);
    assert_eq!(value_of(&result), 5);
}

#[test]
fn simulated_annealing_that_always_accepts_walks() {
    let objective = landscape_objective();
    let solver = SimulatedAnnealingSolver::with_options(
        Arc::new(Steps),
        objective.clone(),
        1_000_000,
        900_000,
        AlwaysAccept,
        Some(1),
        Silent,
        None,
        Some(10),
    );
    // Every first neighbor is accepted: 3 -> 2 -> 1 -> 0 -> 1 -> 0 ... for ten steps; the best
    // seen is 1 (value 2), reached from 2.
    let (result, steps) = solver.run(3);
    assert_eq!(steps, 10);
    assert_eq!(*result.solution(), 1);
    assert_eq!(value_of(&result), 2);
}

#[test]
fn cooling_multiplies_temperature() {
    assert_eq!(rapid_solve::simulated_annealing::cool(2_000_000, 900_000), 1_800_000);
    assert_eq!(rapid_solve::simulated_annealing::cool(7, 1_000_000), 7);
}

// ---------- a traveling salesman tour with 3-exchange moves ----------

#[derive(Clone)]
struct Tour {
    nodes: Vec<usize>,
    total_distance: i64,
    distances: Arc<Vec<Vec<i64>>>,
}

impl Tour {
    fn new(nodes: Vec<usize>, distances: Arc<Vec<Vec<i64>>>) -> Tour {
        let total_distance = from_scratch(&nodes, &distances);
        Tour { nodes, total_distance, distances }
    }

    /// Keeps 0..=i, then j+1..=k, then i+1..=j, then k+1..; the distance is updated from the
    /// three removed and the three added arcs.
    fn three_opt_swap(&self, i: usize, j: usize, k: usize) -> Tour {
        let n = self.nodes.len();
        let d = |a: usize, b: usize| self.distances[self.nodes[a]][self.nodes[b % n]];
        let total_distance = self.total_distance - d(i, i + 1) - d(j, j + 1) - d(k, k + 1)
            + d(i, j + 1)
            + d(j, k + 1)
            + d(k, i + 1);
        let mut nodes = Vec::with_capacity(n);
        nodes.extend_from_slice(&self.nodes[0..i + 1]);
        nodes.extend_from_slice(&self.nodes[j + 1..k + 1]);
        nodes.extend_from_slice(&self.nodes[i + 1..j + 1]);
        nodes.extend_from_slice(&self.nodes[k + 1..]);
        Tour { nodes, total_distance, distances: self.distances.clone() }
    }
}

fn from_scratch(nodes: &[usize], distances: &[Vec<i64>]) -> i64 {
    (0..nodes.len())
        .map(|i| distances[nodes[i]][nodes[(i + 1) % nodes.len()]])
        .sum()
}

struct TotalDistance;

impl Indicator<Tour> for TotalDistance {
    fn value(&self, tour: Tour) -> BaseValue {
        BaseValue::Float(tour.total_distance * 1_000_000)
    }

    fn evaluate(&self, tour: &Tour) -> BaseValue {
        self.value(tour.clone())
    }

    fn name(&self) -> String {
        String::from("TotalDistance")
    }
}

struct ThreeOpt;

impl Neighborhood<Tour> for ThreeOpt {
    fn neighbors(&self, tour: Tour) -> Vec<Tour> {
        let n = tour.nodes.len();
        let mut r = Vec::new();
        for i in 0..n - 2 {
            for j in i + 1..n - 1 {
                for k in j + 1..n {
                    r.push(tour.three_opt_swap(i, j, k));
                }
            }
        }
        r
    }

    fn neighbors_of(&self, tour: &Tour) -> Vec<Tour> {
        self.neighbors(tour.clone())
    }
}

#[test]
fn tsp_three_opt_local_search() {
    let distances = Arc::new(vec![
        vec![0, 10, 15, 20],
        vec![10, 0, 35, 25],
        vec![15, 35, 0, 30],
        vec![20, 25, 30, 0],
    ]);
    let tour = Tour::new(vec![0, 1, 2, 3], distances.clone());
    assert_eq!(tour.total_distance, 10 + 35 + 30 + 20);
    let objective = Arc::new(Objective::new_single_indicator(Box::new(TotalDistance)));
    let solver = LocalSearchSolver::initialize(Arc::new(ThreeOpt), objective);
    let local_opt_tour = solver.solve(tour);
    assert_eq!(local_opt_tour.solution().nodes, vec![0, 2, 3, 1]);
    assert_eq!(local_opt_tour.solution().total_distance, 15 + 30 + 25 + 10);
    assert_eq!(
        local_opt_tour.solution().total_distance,
        from_scratch(&local_opt_tour.solution().nodes, &distances)
    );
    assert_eq!(
        local_opt_tour.objective_value().as_vec(),
        &vec![BaseValue::Float(80_000_000)]
    );
}

#[test]
fn local_search_respects_time_limit() {
    let objective = landscape_objective();
    let improver = Minimizer::new(Arc::new(Steps), objective.clone());
    let solver = LocalSearchSolver::with_options(
        objective.clone(),
        improver,
        Silent,
        Some(std::time::Duration::ZERO),
        None,
    );
    let (result, steps) = solver.run(3);
    assert_eq!(steps, 1);
    assert_eq!(*result.solution(), 4);
}

#[test]
fn parallel_solvers_reach_the_same_optima() {
    let objective = landscape_objective();
    let solver = ParallelLocalSearchSolver::initialize(Arc::new(Steps), objective.clone());
    assert_eq!(*solver.solve(3).solution(), 5);
    let tabu = ParallelTabuSearchSolver::initialize(Arc::new(TabuSteps), objective.clone(), 2, 6);
    assert_eq!(*tabu.solve(3).solution(), 5);
}
