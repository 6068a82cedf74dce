//! Improvers that evaluate neighborhoods on several threads (through `rayon`): a parallel
//! minimizer, a parallel tabu minimizer, and a racing improver that takes any improving
//! neighbor and recurses on the best neighbors where there is none.
use crate::local_improver::{
    evaluated_pairs, frontier_candidates, frontier_neighbors, insert_candidate,
    lemma_insert_width_zero, lemma_singleton_frontier, lemma_totally_ordered_prefix, none_below,
    pair_of, pairs_of, pool_fold, pool_fold_into, strictly_increasing, totally_ordered,
    totally_ordered_set, values_of, LocalImprover,
};
use crate::base_value::BaseValue;
use crate::neighborhood::{Neighborhood, TabuNeighborhood};
use crate::objective::{EvaluatedSolution, Objective};
use crate::objective_value::{lex_le, lex_lt, ObjectiveValue};
use crate::tabu_search::{tabu_values, TabuImprover};
use rayon::iter::{IndexedParallelIterator, IntoParallelIterator, ParallelIterator};
use std::cmp::Ordering;
use std::collections::VecDeque;
use std::sync::Arc;
use vstd::prelude::*;

verus! {

/// The order of two evaluated solutions by objective value; values that cannot be compared
/// count as equal.
pub fn compare_values<S>(a: &EvaluatedSolution<S>, b: &EvaluatedSolution<S>) -> (r: Ordering)
    ensures
        r == match crate::objective_value::lex_cmp(a.val(), b.val()) {
            Some(o) => o,
            None => Ordering::Equal,
        },
{
    match a.objective_value().try_compare(b.objective_value()) {
        Some(o) => o,
        None => Ordering::Equal,
    }
}

/// Relies on rayon's `IndexedParallelIterator::collect_into_vec` over `map`: evaluates every
/// candidate on the thread pool; the results keep the order of the candidates.
#[verifier::external_body]
fn par_evaluate<S: Send + Sync, X: Send + Sync>(objective: &Objective<S>, candidates: Vec<(S, X)>) -> (r: Vec<
    (EvaluatedSolution<S>, X),
>)
    requires
        forall|s: S| #[trigger] objective.evaluable(s),
    ensures
        r@.len() == candidates@.len(),
        forall|i: int|
            0 <= i < r@.len() ==> (#[trigger] r@[i]).0.sol() == candidates@[i].0 && r@[i].0.val()
                == objective.value_of(candidates@[i].0) && r@[i].1 == candidates@[i].1,
{
    let mut r = Vec::new();
    candidates.into_par_iter().map(|(s, x)| (objective.evaluate(s), x)).collect_into_vec(&mut r);
    r
}

/// The objective values of evaluated items.
pub open spec fn item_values<S, X>(items: Seq<(EvaluatedSolution<S>, X)>) -> Seq<Seq<crate::base_value::BaseValue>> {
    items.map_values(|p: (EvaluatedSolution<S>, X)| p.0.val())
}

/// Relies on rayon's `ParallelIterator::min_by`: one of the items, `None` exactly for no items;
/// where the comparison is a total order on the items' values, a minimum for it.
#[verifier::external_body]
fn par_min<S: Send + Sync, X: Send + Sync>(items: Vec<(EvaluatedSolution<S>, X)>) -> (r: Option<
    (EvaluatedSolution<S>, X),
>)
    ensures
        r is None <==> items@.len() == 0,
        r is Some ==> exists|i: int| 0 <= i < items@.len() && #[trigger] items@[i] == r->0,
        r is Some && totally_ordered_set(item_values(items@)) ==> forall|j: int|
            0 <= j < items@.len() ==> lex_le((r->0).0.val(), #[trigger] item_values(items@)[j]),
{
    items.into_par_iter().min_by(|a, b| compare_values(&a.0, &b.0))
}

/// What a race over `candidates` returns: the evaluation of some candidate strictly below
/// `bound`, or `None` where no candidate is.
pub open spec fn any_below_outcome<S>(
    objective: &Objective<S>,
    candidates: Seq<S>,
    bound: Seq<crate::base_value::BaseValue>,
    result: Option<EvaluatedSolution<S>>,
) -> bool {
    match result {
        Some(b) => exists|i: int|
            0 <= i < candidates.len() && #[trigger] candidates[i] == b.sol() && b.val()
                == objective.value_of(candidates[i]) && lex_lt(b.val(), bound),
        None => none_below(values_of(objective, candidates), bound),
    }
}

/// Relies on rayon's `ParallelIterator::find_any` over `map`: evaluates the candidates on the
/// thread pool and returns some evaluation strictly below `bound` as soon as one is found, or
/// `None` where no candidate is below it.
#[verifier::external_body]
fn par_find_below<S: Send + Sync>(objective: &Objective<S>, candidates: Vec<S>, bound: &ObjectiveValue) -> (r: Option<
    EvaluatedSolution<S>,
>)
    requires
        forall|s: S| #[trigger] objective.evaluable(s),
    ensures
        any_below_outcome(objective, candidates@, bound@, r),
{
    candidates.into_par_iter().map(|s| objective.evaluate(s)).find_any(|e| e.is_below(bound))
}

/// Pairs each element with `()`.
fn with_unit<S>(v: Vec<S>) -> (r: Vec<(S, ())>)
    ensures
        r@.len() == v@.len(),
        forall|i: int| 0 <= i < v@.len() ==> (#[trigger] r@[i]).0 == v@[i],
{
    let ghost input = v@;
    let mut rest = crate::neighborhood::reversed(v);
    let total = rest.len();
    let mut r: Vec<(S, ())> = Vec::new();
    while rest.len() > 0
        invariant
            rest@.len() + r@.len() == input.len(),
            input.len() == total,
            forall|j: int| 0 <= j < rest@.len() ==> #[trigger] rest@[j] == input[input.len() - 1 - j],
            forall|i: int| 0 <= i < r@.len() ==> (#[trigger] r@[i]).0 == input[i],
        decreases rest@.len(),
    {
        let x = rest.pop().unwrap();
        r.push((x, ()));
    }
    r
}

/// Drops the `()` of each pair.
fn without_unit<S>(v: Vec<(EvaluatedSolution<S>, ())>) -> (r: Vec<EvaluatedSolution<S>>)
    ensures
        r@.len() == v@.len(),
        forall|i: int| 0 <= i < v@.len() ==> #[trigger] r@[i] == v@[i].0,
{
    let ghost input = v@;
    let mut rest = crate::neighborhood::reversed(v);
    let total = rest.len();
    let mut r: Vec<EvaluatedSolution<S>> = Vec::new();
    while rest.len() > 0
        invariant
            rest@.len() + r@.len() == input.len(),
            input.len() == total,
            forall|j: int| 0 <= j < rest@.len() ==> #[trigger] rest@[j] == input[input.len() - 1 - j],
            forall|i: int| 0 <= i < r@.len() ==> #[trigger] r@[i] == input[i].0,
        decreases rest@.len(),
    {
        let (x, _) = rest.pop().unwrap();
        r.push(x);
    }
    r
}

/// Evaluates every candidate on the thread pool, keeping their order.
fn evaluate_all<S: Send + Sync>(objective: &Objective<S>, candidates: Vec<S>) -> (r: Vec<
    EvaluatedSolution<S>,
>)
    requires
        forall|s: S| #[trigger] objective.evaluable(s),
    ensures
        r@.len() == candidates@.len(),
        forall|i: int|
            0 <= i < r@.len() ==> (#[trigger] r@[i]).sol() == candidates@[i] && r@[i].val()
                == objective.value_of(candidates@[i]),
{
    let paired = with_unit(candidates);
    let evaluated = par_evaluate(objective, paired);
    without_unit(evaluated)
}

/// Searches the whole neighborhood on several threads and returns the best neighbor where it
/// is better than the given solution.
#[verifier::reject_recursive_types(S)]
#[verifier::reject_recursive_types(N)]
pub struct ParallelMinimizer<S, N: Neighborhood<S> + ?Sized> {
    neighborhood: Arc<N>,
    objective: Arc<Objective<S>>,
}

impl<S, N: Neighborhood<S> + ?Sized> ParallelMinimizer<S, N> {
    /// The neighborhood.
    pub closed spec fn spec_neighborhood(&self) -> &N {
        &*self.neighborhood
    }

    /// The objective.
    pub closed spec fn spec_objective(&self) -> &Objective<S> {
        &*self.objective
    }

    /// Creates a [`ParallelMinimizer`] over `neighborhood` and `objective`.
    pub fn new(neighborhood: Arc<N>, objective: Arc<Objective<S>>) -> (r: Self)
        ensures
            r.spec_neighborhood() == &*neighborhood,
            r.spec_objective() == &*objective,
    {
        ParallelMinimizer { neighborhood, objective }
    }
}

/// What a parallel minimizer returns: a neighbor strictly better than `solution`, or `None`
/// where there is no neighbor or the minimum it found is not better.
pub open spec fn parallel_minimizer_outcome<S, N: Neighborhood<S> + ?Sized>(
    neighborhood: &N,
    objective: &Objective<S>,
    solution: EvaluatedSolution<S>,
    result: Option<EvaluatedSolution<S>>,
) -> bool {
    let ns = neighborhood.neighbors(solution.sol())@;
    let vals = values_of(objective, ns);
    &&& match result {
        Some(b) => exists|i: int|
            0 <= i < ns.len() && #[trigger] ns[i] == b.sol() && b.val() == vals[i] && lex_lt(
                vals[i],
                solution.val(),
            ),
        None => ns.len() == 0 || exists|i: int|
            0 <= i < ns.len() && !lex_lt(#[trigger] vals[i], solution.val()),
    }
    &&& totally_ordered(vals, solution.val()) ==> match result {
        Some(b) => forall|j: int| 0 <= j < vals.len() ==> lex_le(b.val(), #[trigger] vals[j]),
        None => none_below(vals, solution.val()),
    }
}

impl<S: Send + Sync, N: Neighborhood<S> + ?Sized> LocalImprover<S> for ParallelMinimizer<S, N> {
    open spec fn ready(&self) -> bool {
        forall|s: S| #[trigger] self.spec_objective().evaluable(s)
    }

    open spec fn outcome(
        &self,
        solution: EvaluatedSolution<S>,
        result: Option<EvaluatedSolution<S>>,
    ) -> bool {
        parallel_minimizer_outcome(self.spec_neighborhood(), self.spec_objective(), solution, result)
    }

    fn improve(&self, solution: &EvaluatedSolution<S>) -> (r: Option<EvaluatedSolution<S>>) {
        let neighbors = self.neighborhood.neighbors_of(solution.solution());
        let ghost ns = neighbors@;
        let objective: &Objective<S> = &*self.objective;
        proof {
            assert(objective == self.spec_objective());
        }
        let paired = with_unit(neighbors);
        let evaluated = par_evaluate(objective, paired);
        let ghost ev = evaluated@;
        let ghost vals = values_of(objective, ns);
        proof {
            assert(item_values(ev) =~= vals);
            if totally_ordered(vals, solution.val()) {
                lemma_totally_ordered_prefix(vals, solution.val());
            }
        }
        match par_min(evaluated) {
            Some((best, unit)) => {
                proof {
                    let i = choose|i: int| 0 <= i < ev.len() && #[trigger] ev[i] == (best, unit);
                    assert(ns[i] == best.sol() && best.val() == vals[i]);
                    if totally_ordered(vals, solution.val()) && !lex_lt(best.val(), solution.val()) {
                        let all = vals.push(solution.val());
                        let n = vals.len() as int;
                        assert forall|j: int| 0 <= j < vals.len() implies !lex_lt(
                            #[trigger] vals[j],
                            solution.val(),
                        ) by {
                            assert(lex_le(best.val(), item_values(ev)[j]));
                            assert(all[i] == vals[i] && all[j] == vals[j] && all[n] == solution.val());
                            if lex_lt(vals[j], solution.val()) {
                                assert(lex_le(all[i], all[j]) && lex_le(all[j], all[n]));
                            }
                        }
                    }
                }
                if best.is_better_than(solution) {
                    Some(best)
                } else {
                    None
                }
            },
            None => None,
        }
    }
}

/// Searches the whole tabu neighborhood on several threads and returns the best allowed
/// neighbor with its tabus; `None` only where no neighbor is allowed.
#[verifier::reject_recursive_types(S)]
#[verifier::reject_recursive_types(T)]
#[verifier::reject_recursive_types(N)]
pub struct ParallelTabuMinimizer<S, T, N: TabuNeighborhood<S, T> + ?Sized> {
    neighborhood: Arc<N>,
    objective: Arc<Objective<S>>,
    tabu: std::marker::PhantomData<T>,
}

impl<S, T, N: TabuNeighborhood<S, T> + ?Sized> ParallelTabuMinimizer<S, T, N> {
    /// The neighborhood.
    pub closed spec fn spec_neighborhood(&self) -> &N {
        &*self.neighborhood
    }

    /// The objective.
    pub closed spec fn spec_objective(&self) -> &Objective<S> {
        &*self.objective
    }

    /// Creates a [`ParallelTabuMinimizer`] over `neighborhood` and `objective`.
    pub fn new(neighborhood: Arc<N>, objective: Arc<Objective<S>>) -> (r: Self)
        ensures
            r.spec_neighborhood() == &*neighborhood,
            r.spec_objective() == &*objective,
    {
        ParallelTabuMinimizer { neighborhood, objective, tabu: std::marker::PhantomData }
    }
}

impl<S: Send + Sync, T: Send + Sync, N: TabuNeighborhood<S, T> + ?Sized> TabuImprover<S, T> for ParallelTabuMinimizer<
    S,
    T,
    N,
> {
    open spec fn ready(&self) -> bool {
        forall|s: S| #[trigger] self.spec_objective().evaluable(s)
    }

    open spec fn outcome(
        &self,
        solution: EvaluatedSolution<S>,
        tabu_list: VecDeque<T>,
        result: Option<(EvaluatedSolution<S>, Vec<T>)>,
    ) -> bool {
        let ns = self.spec_neighborhood().neighbors(solution.sol(), tabu_list)@;
        let vals = tabu_values(self.spec_objective(), ns);
        &&& match result {
            None => ns.len() == 0,
            Some((b, tabus)) => exists|i: int|
                0 <= i < ns.len() && #[trigger] ns[i].0 == b.sol() && b.val()
                    == self.spec_objective().value_of(ns[i].0) && tabus == ns[i].1,
        }
        &&& totally_ordered_set(vals) ==> match result {
            None => true,
            Some((b, tabus)) => forall|j: int| 0 <= j < vals.len() ==> lex_le(b.val(), #[trigger] vals[j]),
        }
    }

    fn improve(&self, solution: &EvaluatedSolution<S>, tabu_list: &VecDeque<T>) -> (r: Option<
        (EvaluatedSolution<S>, Vec<T>),
    >) {
        let neighbors = self.neighborhood.neighbors_of(solution.solution(), tabu_list);
        let objective: &Objective<S> = &*self.objective;
        proof {
            assert(objective == self.spec_objective());
        }
        let ghost ns = neighbors@;
        let evaluated = par_evaluate(objective, neighbors);
        let ghost ev = evaluated@;
        proof {
            assert(item_values(ev) =~= tabu_values(objective, ns));
        }
        let r = par_min(evaluated);
        proof {
            if r is Some {
                let i = choose|i: int| 0 <= i < ev.len() && #[trigger] ev[i] == r->0;
                let b = (r->0).0;
                let tabus = (r->0).1;
                assert(0 <= i < ns.len() && ns[i].0 == b.sol() && b.val()
                    == self.spec_objective().value_of(ns[i].0) && tabus == ns[i].1);
            } else {
                assert(ns.len() == 0);
            }
            assert(ns == self.spec_neighborhood().neighbors(solution.sol(), *tabu_list)@);
            assert(self.outcome(*solution, *tabu_list, r));
        }
        r
    }
}

/// Races for any improving neighbor on several threads. Where no neighbor of the frontier (at
/// first the given solution) is better than the value to beat, which never changes, it keeps
/// for each frontier member its best `recursion_width` neighbors (distinct by objective value;
/// all of them without a width), merges them without duplicate values, and searches again from
/// them, up to `recursion_depth` times. The race over a level stops as soon as a thread finds
/// an improving neighbor; after a level without one, the frontier's neighborhoods are evaluated
/// again to pick the next frontier. Not deterministic.
#[verifier::reject_recursive_types(S)]
#[verifier::reject_recursive_types(N)]
pub struct TakeAnyParallelRecursion<S, N: Neighborhood<S> + ?Sized> {
    recursion_depth: u8,
    recursion_width: Option<usize>,
    neighborhood: Arc<N>,
    objective: Arc<Objective<S>>,
}

/// The racing improver under the name it has in the parallel local search.
pub type TakeAnyRecursion<S, N> = TakeAnyParallelRecursion<S, N>;

/// The best `width` neighbors of `member` with distinct objective values, ascending.
pub open spec fn member_pool<S, N: Neighborhood<S> + ?Sized>(
    neighborhood: &N,
    objective: &Objective<S>,
    width: int,
    member: S,
) -> Seq<(S, Seq<BaseValue>)> {
    pool_fold(evaluated_pairs(objective, neighborhood.neighbors(member)@), width)
}

/// The next frontier after a level without success: the pools of all members, merged member
/// after member into one pool without two equal values (and without a width).
pub open spec fn merged_pool<S, N: Neighborhood<S> + ?Sized>(
    neighborhood: &N,
    objective: &Objective<S>,
    width: int,
    frontier: Seq<(S, Seq<BaseValue>)>,
) -> Seq<(S, Seq<BaseValue>)>
    decreases frontier.len(),
{
    if frontier.len() == 0 {
        Seq::empty()
    } else {
        pool_fold_into(
            merged_pool(neighborhood, objective, width, frontier.drop_last()),
            member_pool(neighborhood, objective, width, frontier.last().0),
            usize::MAX as int,
        )
    }
}

/// The solution and value of an optional result.
pub open spec fn opt_pair<S>(result: Option<EvaluatedSolution<S>>) -> Option<(S, Seq<BaseValue>)> {
    match result {
        Some(e) => Some(pair_of(e)),
        None => None,
    }
}

/// Whether `result` is a possible result of the racing search from `frontier`: at each level,
/// where some neighbor of a frontier member is strictly below `bound`, the result is one of
/// those neighbors (whichever a thread finds first); where none is, and `remaining` levels are
/// left, the search goes on from [`merged_pool`]; with no level left, the result is `None`.
pub open spec fn take_any_levels<S, N: Neighborhood<S> + ?Sized>(
    neighborhood: &N,
    objective: &Objective<S>,
    width: int,
    frontier: Seq<(S, Seq<BaseValue>)>,
    bound: Seq<BaseValue>,
    remaining: nat,
    result: Option<(S, Seq<BaseValue>)>,
) -> bool
    decreases remaining,
{
    let candidates = frontier_neighbors(neighborhood, frontier);
    let vals = values_of(objective, candidates);
    if !none_below(vals, bound) {
        match result {
            Some(found) => exists|i: int|
                0 <= i < candidates.len() && #[trigger] candidates[i] == found.0 && found.1
                    == vals[i] && lex_lt(vals[i], bound),
            None => false,
        }
    } else if remaining == 0 {
        result is None
    } else {
        take_any_levels(
            neighborhood,
            objective,
            width,
            merged_pool(neighborhood, objective, width, frontier),
            bound,
            (remaining - 1) as nat,
            result,
        )
    }
}

/// What the racing improver returns for `solution`: a possible result of [`take_any_levels`]
/// from the frontier that holds `solution` alone, with the solution's value to beat.
pub open spec fn take_any_outcome<S, N: Neighborhood<S> + ?Sized>(
    neighborhood: &N,
    objective: &Objective<S>,
    depth: u8,
    width: int,
    solution: EvaluatedSolution<S>,
    result: Option<EvaluatedSolution<S>>,
) -> bool {
    take_any_levels(
        neighborhood,
        objective,
        width,
        seq![pair_of(solution)],
        solution.val(),
        depth as nat,
        opt_pair(result),
    )
}

proof fn lemma_pool_width_zero<S>(items: Seq<(S, Seq<BaseValue>)>)
    ensures
        pool_fold(items, 0) == Seq::<(S, Seq<BaseValue>)>::empty(),
    decreases items.len(),
{
    if items.len() > 0 {
        lemma_pool_width_zero(items.drop_last());
        lemma_insert_width_zero(Seq::<(S, Seq<BaseValue>)>::empty(), items.last());
    }
}

impl<S: Send + Sync, N: Neighborhood<S> + ?Sized> TakeAnyParallelRecursion<S, N> {
    /// The neighborhood.
    pub closed spec fn spec_neighborhood(&self) -> &N {
        &*self.neighborhood
    }

    /// The objective.
    pub closed spec fn spec_objective(&self) -> &Objective<S> {
        &*self.objective
    }

    /// The number of recursion levels.
    pub closed spec fn depth(&self) -> u8 {
        self.recursion_depth
    }

    /// The number of neighbors each frontier member passes on (`usize::MAX` for no limit).
    pub closed spec fn width(&self) -> int {
        match self.recursion_width {
            Some(w) => w as int,
            None => usize::MAX as int,
        }
    }

    /// Creates a racing improver that recurses `recursion_depth` times on the best
    /// `recursion_width` neighbors of each frontier member (all of them for `None`).
    pub fn new(
        recursion_depth: u8,
        recursion_width: Option<usize>,
        neighborhood: Arc<N>,
        objective: Arc<Objective<S>>,
    ) -> (r: Self)
        ensures
            r.spec_neighborhood() == &*neighborhood,
            r.spec_objective() == &*objective,
            r.depth() == recursion_depth,
            r.width() == match recursion_width {
                Some(w) => w as int,
                None => usize::MAX as int,
            },
    {
        TakeAnyParallelRecursion { recursion_depth, recursion_width, neighborhood, objective }
    }

    /// Adds to `merged` the best neighbors of `solution` (at most `recursion_width` of them,
    /// distinct by objective value), leaving out values that `merged` already holds.
    fn add_best_neighbors(&self, solution: &S, merged: &mut Vec<EvaluatedSolution<S>>)
        requires
            forall|s: S| #[trigger] self.spec_objective().evaluable(s),
            forall|k: int| 0 <= k < old(merged)@.len() ==> self.spec_objective().evaluates(
                #[trigger] old(merged)@[k],
            ),
            strictly_increasing(old(merged)@),
        ensures
            strictly_increasing(final(merged)@),
            forall|k: int| 0 <= k < final(merged)@.len() ==> self.spec_objective().evaluates(
                #[trigger] final(merged)@[k],
            ),
            pairs_of(final(merged)@) == pool_fold_into(
                pairs_of(old(merged)@),
                member_pool(self.spec_neighborhood(), self.spec_objective(), self.width(), *solution),
                usize::MAX as int,
            ),
    {
        let objective: &Objective<S> = &*self.objective;
        proof {
            assert(objective == self.spec_objective());
        }
        let width: usize = match self.recursion_width {
            Some(w) => w,
            None => usize::MAX,
        };
        let ns = self.neighborhood.neighbors_of(solution);
        let ghost cs = ns@;
        let evaluated = evaluate_all(objective, ns);
        let ghost items = evaluated_pairs(objective, cs);
        let mut own: Vec<EvaluatedSolution<S>> = Vec::new();
        let mut rest = crate::neighborhood::reversed(evaluated);
        let ghost ev = evaluated@;
        let total = rest.len();
        let mut k: usize = 0;
        proof {
            assert(items.take(0) =~= Seq::<(S, Seq<BaseValue>)>::empty());
        }
        while rest.len() > 0 && width > 0
            invariant
                objective == self.spec_objective(),
                width as int == self.width(),
                forall|s: S| #[trigger] objective.evaluable(s),
                rest@.len() + k == ev.len(),
                ev.len() == total,
                ev.len() == cs.len(),
                items == evaluated_pairs(objective, cs),
                forall|j: int| 0 <= j < rest@.len() ==> #[trigger] rest@[j] == ev[ev.len() - 1 - j],
                forall|j: int| 0 <= j < ev.len() ==> (#[trigger] ev[j]).sol() == cs[j] && ev[j].val() == objective.value_of(cs[j]),
                own@.len() <= width,
                forall|j: int| 0 <= j < own@.len() ==> objective.evaluates(#[trigger] own@[j]),
                strictly_increasing(own@),
                pairs_of(own@) == pool_fold(items.take(k as int), width as int),
            decreases rest@.len(),
        {
            let e = rest.pop().unwrap();
            proof {
                assert(e == ev[k as int]);
                assert(items.take(k + 1).drop_last() =~= items.take(k as int));
                assert(items.take(k + 1).last() == pair_of(e));
            }
            insert_candidate(objective, &mut own, e, width);
            k += 1;
        }
        proof {
            if width == 0 {
                lemma_pool_width_zero(items);
                assert(pairs_of(own@) =~= pool_fold(items, width as int));
            } else {
                assert(items.take(k as int) =~= items);
            }
        }
        let ghost own_pairs = pairs_of(own@);
        let ghost start = pairs_of(merged@);
        let mut rest = crate::neighborhood::reversed(own);
        let ghost ow = own@;
        let total = rest.len();
        let mut k: usize = 0;
        proof {
            assert(own_pairs.take(0) =~= Seq::<(S, Seq<BaseValue>)>::empty());
        }
        while rest.len() > 0
            invariant
                objective == self.spec_objective(),
                rest@.len() + k == ow.len(),
                ow.len() == total,
                own_pairs == pairs_of(ow),
                forall|j: int| 0 <= j < rest@.len() ==> #[trigger] rest@[j] == ow[ow.len() - 1 - j],
                forall|j: int| 0 <= j < ow.len() ==> objective.evaluates(#[trigger] ow[j]),
                forall|j: int| 0 <= j < merged@.len() ==> objective.evaluates(#[trigger] merged@[j]),
                strictly_increasing(merged@),
                pairs_of(merged@) == pool_fold_into(start, own_pairs.take(k as int), usize::MAX as int),
            decreases rest@.len(),
        {
            let e = rest.pop().unwrap();
            proof {
                assert(e == ow[k as int]);
                assert(own_pairs.take(k + 1).drop_last() =~= own_pairs.take(k as int));
                assert(own_pairs.take(k + 1).last() == pair_of(e));
            }
            let len = merged.len();
            insert_candidate(objective, merged, e, usize::MAX);
            k += 1;
        }
        proof {
            assert(own_pairs.take(k as int) =~= own_pairs);
        }
    }

    /// The next frontier: the best neighbors of each member of `solutions`, merged without
    /// duplicate values ([`merged_pool`]).
    fn recursion_pool(&self, solutions: &Vec<EvaluatedSolution<S>>) -> (r: Vec<
        EvaluatedSolution<S>,
    >)
        requires
            forall|s: S| #[trigger] self.spec_objective().evaluable(s),
        ensures
            forall|i: int| 0 <= i < r@.len() ==> self.spec_objective().evaluates(#[trigger] r@[i]),
            strictly_increasing(r@),
            pairs_of(r@) == merged_pool(
                self.spec_neighborhood(),
                self.spec_objective(),
                self.width(),
                pairs_of(solutions@),
            ),
    {
        let mut merged: Vec<EvaluatedSolution<S>> = Vec::new();
        let mut i: usize = 0;
        proof {
            assert(pairs_of(solutions@.take(0)) =~= Seq::<(S, Seq<BaseValue>)>::empty());
            assert(pairs_of(merged@) =~= Seq::<(S, Seq<BaseValue>)>::empty());
        }
        while i < solutions.len()
            invariant
                i <= solutions@.len(),
                forall|s: S| #[trigger] self.spec_objective().evaluable(s),
                forall|k: int| 0 <= k < merged@.len() ==> self.spec_objective().evaluates(
                    #[trigger] merged@[k],
                ),
                strictly_increasing(merged@),
                pairs_of(merged@) == merged_pool(
                    self.spec_neighborhood(),
                    self.spec_objective(),
                    self.width(),
                    pairs_of(solutions@.take(i as int)),
                ),
            decreases solutions@.len() - i,
        {
            proof {
                assert(pairs_of(solutions@.take(i + 1)).drop_last() =~= pairs_of(
                    solutions@.take(i as int),
                ));
                assert(pairs_of(solutions@.take(i + 1)).last().0 == solutions@[i as int].sol());
            }
            self.add_best_neighbors(solutions[i].solution(), &mut merged);
            i += 1;
        }
        proof {
            assert(solutions@.take(i as int) =~= solutions@);
        }
        merged
    }

    /// Races over the neighbors of all of `solutions` for one strictly below
    /// `objective_to_beat`; where there is none, recurses `remaining_recursion` more times on
    /// [`merged_pool`]: the result is a possible result of [`take_any_levels`].
    fn improve_recursion(
        &self,
        solutions: Vec<EvaluatedSolution<S>>,
        objective_to_beat: &ObjectiveValue,
        remaining_recursion: u8,
    ) -> (r: Option<EvaluatedSolution<S>>)
        requires
            forall|s: S| #[trigger] self.spec_objective().evaluable(s),
        ensures
            r is Some ==> lex_lt(r->0.val(), objective_to_beat@) && self.spec_objective().evaluates(
                r->0,
            ),
            take_any_levels(
                self.spec_neighborhood(),
                self.spec_objective(),
                self.width(),
                pairs_of(solutions@),
                objective_to_beat@,
                remaining_recursion as nat,
                opt_pair(r),
            ),
        decreases remaining_recursion,
    {
        let objective: &Objective<S> = &*self.objective;
        proof {
            assert(objective == self.spec_objective());
        }
        let candidates = frontier_candidates(&*self.neighborhood, &solutions);
        let ghost cs = candidates@;
        match par_find_below(objective, candidates, objective_to_beat) {
            Some(b) => {
                proof {
                    let i = choose|i: int|
                        0 <= i < cs.len() && #[trigger] cs[i] == b.sol() && b.val()
                            == objective.value_of(cs[i]) && lex_lt(b.val(), objective_to_beat@);
                    let vals = values_of(objective, cs);
                    assert(vals[i] == b.val());
                    assert(!none_below(vals, objective_to_beat@));
                }
                Some(b)
            },
            None => {
                if remaining_recursion > 0 {
                    let pool = self.recursion_pool(&solutions);
                    self.improve_recursion(pool, objective_to_beat, remaining_recursion - 1)
                } else {
                    None
                }
            },
        }
    }
}

impl<S: Send + Sync, N: Neighborhood<S> + ?Sized> LocalImprover<S> for TakeAnyParallelRecursion<
    S,
    N,
> {
    open spec fn ready(&self) -> bool {
        forall|s: S| #[trigger] self.spec_objective().evaluable(s)
    }

    open spec fn outcome(
        &self,
        solution: EvaluatedSolution<S>,
        result: Option<EvaluatedSolution<S>>,
    ) -> bool {
        take_any_outcome(
            self.spec_neighborhood(),
            self.spec_objective(),
            self.depth(),
            self.width(),
            solution,
            result,
        )
    }

    fn improve(&self, solution: &EvaluatedSolution<S>) -> (r: Option<EvaluatedSolution<S>>) {
        let objective: &Objective<S> = &*self.objective;
        let neighbors = self.neighborhood.neighbors_of(solution.solution());
        let ghost ns = neighbors@;
        proof {
            assert(objective == self.spec_objective());
            lemma_singleton_frontier(self.spec_neighborhood(), pair_of(*solution));
        }
        match par_find_below(objective, neighbors, solution.objective_value()) {
            Some(b) => {
                proof {
                    let vals = values_of(objective, ns);
                    let i = choose|i: int|
                        0 <= i < ns.len() && #[trigger] ns[i] == b.sol() && b.val()
                            == objective.value_of(ns[i]) && lex_lt(b.val(), solution.val());
                    assert(vals[i] == b.val());
                    assert(!none_below(vals, solution.val()));
                }
                Some(b)
            },
            None => {
                if self.recursion_depth > 0 {
                    let mut pool: Vec<EvaluatedSolution<S>> = Vec::new();
                    proof {
                        assert(pairs_of(pool@) =~= Seq::<(S, Seq<BaseValue>)>::empty());
                    }
                    self.add_best_neighbors(solution.solution(), &mut pool);
                    proof {
                        let f = seq![pair_of(*solution)];
                        assert(f.len() == 1 && f.last() == pair_of(*solution));
                        assert(f.drop_last() =~= Seq::<(S, Seq<BaseValue>)>::empty());
                        assert(merged_pool(
                            self.spec_neighborhood(),
                            self.spec_objective(),
                            self.width(),
                            f.drop_last(),
                        ) == Seq::<(S, Seq<BaseValue>)>::empty());
                        assert(pairs_of(pool@) == merged_pool(
                            self.spec_neighborhood(),
                            self.spec_objective(),
                            self.width(),
                            f,
                        ));
                    }
                    self.improve_recursion(
                        pool,
                        solution.objective_value(),
                        self.recursion_depth - 1,
                    )
                } else {
                    None
                }
            },
        }
    }
}

/// Where exactly one neighbor of `solution` is strictly better than it, the racing improver
/// returns a solution with that neighbor's objective value, at any recursion depth and whatever
/// the threads do; it never returns a value that is not strictly better than `solution`.
pub proof fn lemma_single_improvement_is_found<S: Send + Sync, N: Neighborhood<S> + ?Sized>(
    improver: &TakeAnyParallelRecursion<S, N>,
    solution: EvaluatedSolution<S>,
    result: Option<EvaluatedSolution<S>>,
    k: int,
)
    requires
        improver.outcome(solution, result),
        ({
            let vals = values_of(
                improver.spec_objective(),
                improver.spec_neighborhood().neighbors(solution.sol())@,
            );
            &&& 0 <= k < vals.len()
            &&& lex_lt(vals[k], solution.val())
            &&& forall|j: int| 0 <= j < vals.len() && j != k ==> !lex_lt(#[trigger] vals[j], solution.val())
        }),
    ensures
        result is Some,
        result->0.val() == values_of(
            improver.spec_objective(),
            improver.spec_neighborhood().neighbors(solution.sol())@,
        )[k],
        lex_lt(result->0.val(), solution.val()),
{
    let ns = improver.spec_neighborhood().neighbors(solution.sol())@;
    let vals = values_of(improver.spec_objective(), ns);
    lemma_singleton_frontier(improver.spec_neighborhood(), pair_of(solution));
    assert(!none_below(vals, solution.val()));
    let b = result->0;
    let i = choose|i: int|
        0 <= i < ns.len() && #[trigger] ns[i] == b.sol() && b.val() == vals[i] && lex_lt(
            vals[i],
            solution.val(),
        );
    assert(i == k);
}

} // verus!
