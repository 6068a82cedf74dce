//! Strategies that explore the neighborhood of a solution and pick a strictly better one.
use crate::base_value::BaseValue;
use crate::neighborhood::{reversed, Neighborhood};
use crate::objective::{EvaluatedSolution, Objective};
use crate::objective_value::{lex_cmp, lex_le, lex_lt, ObjectiveValue};
use std::cmp::Ordering;
use std::sync::Arc;
use vstd::prelude::*;

verus! {

/// The objective values of a sequence of solutions.
pub open spec fn values_of<S>(objective: &Objective<S>, sols: Seq<S>) -> Seq<Seq<BaseValue>> {
    sols.map_values(|s: S| objective.value_of(s))
}

/// The position that `min_by` settles on when it scans `vals` from the left: a later value
/// replaces the current minimum only where the minimum compares greater than it.
pub open spec fn running_min(vals: Seq<Seq<BaseValue>>) -> int
    decreases vals.len(),
{
    if vals.len() <= 1 {
        0
    } else {
        let m = running_min(vals.drop_last());
        if lex_cmp(vals[m], vals.last()) == Some(Ordering::Greater) {
            vals.len() - 1
        } else {
            m
        }
    }
}

/// Whether `i` is the first position whose value is strictly below `bound`.
pub open spec fn is_first_below(vals: Seq<Seq<BaseValue>>, bound: Seq<BaseValue>, i: int) -> bool {
    &&& 0 <= i < vals.len()
    &&& lex_lt(vals[i], bound)
    &&& forall|j: int| 0 <= j < i ==> !lex_lt(#[trigger] vals[j], bound)
}

/// Whether no value is strictly below `bound`.
pub open spec fn none_below(vals: Seq<Seq<BaseValue>>, bound: Seq<BaseValue>) -> bool {
    forall|j: int| 0 <= j < vals.len() ==> !lex_lt(#[trigger] vals[j], bound)
}

pub(crate) proof fn lemma_running_min_bounds(vals: Seq<Seq<BaseValue>>)
    requires
        vals.len() >= 1,
    ensures
        0 <= running_min(vals) < vals.len(),
    decreases vals.len(),
{
    if vals.len() > 1 {
        lemma_running_min_bounds(vals.drop_last());
    }
}

/// A strategy that explores the neighborhood of a solution and returns a strictly better
/// solution, or `None` where it finds none.
pub trait LocalImprover<S> {
    /// Whether the strategy can run: its objective can evaluate every solution.
    spec fn ready(&self) -> bool;

    /// What the strategy returns for `solution`: `result` is one of its possible answers.
    spec fn outcome(
        &self,
        solution: EvaluatedSolution<S>,
        result: Option<EvaluatedSolution<S>>,
    ) -> bool;

    /// Returns a neighbor strictly better than `solution`, or `None`.
    fn improve(&self, solution: &EvaluatedSolution<S>) -> (r: Option<EvaluatedSolution<S>>)
        requires
            self.ready(),
        ensures
            self.outcome(*solution, r),
            r is Some ==> lex_lt(r->0.val(), solution.val()),
    ;
}

/// Scans the whole neighborhood and returns the best neighbor where it is better than the
/// given solution. Deterministic; no parallelism.
#[verifier::reject_recursive_types(S)]
#[verifier::reject_recursive_types(N)]
pub struct Minimizer<S, N: Neighborhood<S> + ?Sized> {
    neighborhood: Arc<N>,
    objective: Arc<Objective<S>>,
}

impl<S, N: Neighborhood<S> + ?Sized> Minimizer<S, N> {
    /// The neighborhood.
    pub closed spec fn spec_neighborhood(&self) -> &N {
        &*self.neighborhood
    }

    /// The objective.
    pub closed spec fn spec_objective(&self) -> &Objective<S> {
        &*self.objective
    }

    /// Creates a [`Minimizer`] over `neighborhood` and `objective`.
    pub fn new(neighborhood: Arc<N>, objective: Arc<Objective<S>>) -> (r:
        Minimizer<S, N>)
        ensures
            r.spec_neighborhood() == &*neighborhood,
            r.spec_objective() == &*objective,
    {
        Minimizer { neighborhood, objective }
    }
}

/// What [`Minimizer`] returns for `solution`: the running minimum of the neighbors where it is
/// strictly better than `solution`, else `None`.
pub open spec fn minimizer_outcome<S, N: Neighborhood<S> + ?Sized>(
    neighborhood: &N,
    objective: &Objective<S>,
    solution: EvaluatedSolution<S>,
    result: Option<EvaluatedSolution<S>>,
) -> bool {
    let ns = neighborhood.neighbors(solution.sol())@;
    let vals = values_of(objective, ns);
    let m = running_min(vals);
    match result {
        Some(b) => {
            &&& ns.len() > 0
            &&& b.sol() == ns[m]
            &&& b.val() == vals[m]
            &&& lex_lt(vals[m], solution.val())
        },
        None => ns.len() == 0 || !lex_lt(vals[m], solution.val()),
    }
}

impl<S, N: Neighborhood<S> + ?Sized> LocalImprover<S> for Minimizer<S, N> {
    open spec fn ready(&self) -> bool {
        forall|s: S| #[trigger] self.spec_objective().evaluable(s)
    }

    open spec fn outcome(
        &self,
        solution: EvaluatedSolution<S>,
        result: Option<EvaluatedSolution<S>>,
    ) -> bool {
        minimizer_outcome(self.spec_neighborhood(), self.spec_objective(), solution, result)
    }

    fn improve(&self, solution: &EvaluatedSolution<S>) -> (r: Option<EvaluatedSolution<S>>) {
        let neighbors = self.neighborhood.neighbors_of(solution.solution());
        let ghost ns = neighbors@;
        let ghost vals = values_of(&*self.objective, ns);
        let mut rest = reversed(neighbors);
        let total = rest.len();
        let mut best: Option<EvaluatedSolution<S>> = None;
        let mut k: usize = 0;
        proof {
            assert(forall|s: S| #[trigger] self.spec_objective().evaluable(s));
        }
        while rest.len() > 0
            invariant
                rest@.len() + k == ns.len(),
                ns.len() == total,
                vals.len() == ns.len(),
                k > 0 ==> 0 <= running_min(vals.take(k as int)) < k,
                forall|j: int| 0 <= j < rest@.len() ==> #[trigger] rest@[j] == ns[ns.len() - 1 - j],
                ns == self.spec_neighborhood().neighbors(solution.sol())@,
                vals == values_of(self.spec_objective(), ns),
                forall|s: S| #[trigger] self.spec_objective().evaluable(s),
                (k == 0) == (best is None),
                best is Some ==> {
                    let m = running_min(vals.take(k as int));
                    &&& best->0.sol() == ns[m]
                    &&& best->0.val() == vals[m]
                },
            decreases rest@.len(),
        {
            let n = rest.pop().unwrap();
            let e = self.objective.evaluate(n);
            proof {
                assert(n == ns[k as int]);
                assert(vals[k as int] == self.spec_objective().value_of(ns[k as int]));
                assert(vals.take(k + 1).drop_last() =~= vals.take(k as int));
                assert(vals.take(k + 1).last() == vals[k as int]);
                if k > 0 {
                    lemma_running_min_bounds(vals.take(k as int));
                }
            }
            best = match best {
                None => Some(e),
                Some(b) => {
                    match b.objective_value().try_compare(e.objective_value()) {
                        Some(Ordering::Greater) => Some(e),
                        _ => Some(b),
                    }
                },
            };
            k += 1;
        }
        proof {
            assert(vals.take(k as int) =~= vals);
        }
        match best {
            Some(b) => {
                if b.is_better_than(solution) {
                    Some(b)
                } else {
                    None
                }
            },
            None => None,
        }
    }
}

/// Takes the first neighbor, in the order of the neighborhood, that is better than the given
/// solution. Deterministic; no parallelism.
#[verifier::reject_recursive_types(S)]
#[verifier::reject_recursive_types(N)]
pub struct TakeFirst<S, N: Neighborhood<S> + ?Sized> {
    neighborhood: Arc<N>,
    objective: Arc<Objective<S>>,
}

/// What a first-improvement scan returns for `solution`: the first neighbor strictly better
/// than `solution`, or `None` where none is.
pub open spec fn take_first_outcome<S, N: Neighborhood<S> + ?Sized>(
    neighborhood: &N,
    objective: &Objective<S>,
    solution: EvaluatedSolution<S>,
    result: Option<EvaluatedSolution<S>>,
) -> bool {
    let ns = neighborhood.neighbors(solution.sol())@;
    let vals = values_of(objective, ns);
    match result {
        Some(b) => exists|i: int|
            #[trigger] is_first_below(vals, solution.val(), i) && b.sol() == ns[i] && b.val()
                == vals[i],
        None => none_below(vals, solution.val()),
    }
}

impl<S, N: Neighborhood<S> + ?Sized> TakeFirst<S, N> {
    /// The neighborhood.
    pub closed spec fn spec_neighborhood(&self) -> &N {
        &*self.neighborhood
    }

    /// The objective.
    pub closed spec fn spec_objective(&self) -> &Objective<S> {
        &*self.objective
    }

    /// Creates a [`TakeFirst`] over `neighborhood` and `objective`.
    pub fn new(neighborhood: Arc<N>, objective: Arc<Objective<S>>) -> (r:
        TakeFirst<S, N>)
        ensures
            r.spec_neighborhood() == &*neighborhood,
            r.spec_objective() == &*objective,
    {
        TakeFirst { neighborhood, objective }
    }
}

impl<S, N: Neighborhood<S> + ?Sized> LocalImprover<S> for TakeFirst<S, N> {
    open spec fn ready(&self) -> bool {
        forall|s: S| #[trigger] self.spec_objective().evaluable(s)
    }

    open spec fn outcome(
        &self,
        solution: EvaluatedSolution<S>,
        result: Option<EvaluatedSolution<S>>,
    ) -> bool {
        take_first_outcome(self.spec_neighborhood(), self.spec_objective(), solution, result)
    }

    fn improve(&self, solution: &EvaluatedSolution<S>) -> (r: Option<EvaluatedSolution<S>>) {
        let neighbors = self.neighborhood.neighbors_of(solution.solution());
        let objective: &Objective<S> = &*self.objective;
        proof {
            assert(objective == self.spec_objective());
            assert(forall|s: S| #[trigger] objective.evaluable(s));
        }
        let (found, _pool) = first_below(
            &*self.objective,
            neighbors,
            solution.objective_value(),
            0,
        );
        found
    }
}

/// The solution and objective value of an evaluated solution.
pub open spec fn pair_of<S>(e: EvaluatedSolution<S>) -> (S, Seq<BaseValue>) {
    (e.sol(), e.val())
}

/// The solutions and objective values of a sequence of evaluated solutions.
pub open spec fn pairs_of<S>(es: Seq<EvaluatedSolution<S>>) -> Seq<(S, Seq<BaseValue>)> {
    es.map_values(|e: EvaluatedSolution<S>| pair_of(e))
}

/// Each solution of `sols` with its objective value.
pub open spec fn evaluated_pairs<S>(objective: &Objective<S>, sols: Seq<S>) -> Seq<
    (S, Seq<BaseValue>),
> {
    sols.map_values(|s: S| (s, objective.value_of(s)))
}

/// The neighbors of all members of `frontier`, member after member.
pub open spec fn frontier_neighbors<S, N: Neighborhood<S> + ?Sized>(
    neighborhood: &N,
    frontier: Seq<(S, Seq<BaseValue>)>,
) -> Seq<S>
    decreases frontier.len(),
{
    if frontier.len() == 0 {
        Seq::empty()
    } else {
        frontier_neighbors(neighborhood, frontier.drop_last()) + neighborhood.neighbors(
            frontier.last().0,
        )@
    }
}

/// Collects the neighbors of all members of `solutions`, member after member.
pub(crate) fn frontier_candidates<S, N: Neighborhood<S> + ?Sized>(
    neighborhood: &N,
    solutions: &Vec<EvaluatedSolution<S>>,
) -> (r: Vec<S>)
    ensures
        r@ == frontier_neighbors(neighborhood, pairs_of(solutions@)),
{
    let mut candidates: Vec<S> = Vec::new();
    let mut i: usize = 0;
    while i < solutions.len()
        invariant
            i <= solutions@.len(),
            candidates@ == frontier_neighbors(neighborhood, pairs_of(solutions@.take(i as int))),
        decreases solutions@.len() - i,
    {
        let mut ns = neighborhood.neighbors_of(solutions[i].solution());
        proof {
            assert(pairs_of(solutions@.take(i + 1)).drop_last() =~= pairs_of(
                solutions@.take(i as int),
            ));
        }
        candidates.append(&mut ns);
        i += 1;
    }
    assert(solutions@.take(solutions@.len() as int) =~= solutions@);
    candidates
}

/// The neighbors of a frontier of one member are that member's neighbors.
pub proof fn lemma_singleton_frontier<S, N: Neighborhood<S> + ?Sized>(
    neighborhood: &N,
    member: (S, Seq<BaseValue>),
)
    ensures
        frontier_neighbors(neighborhood, seq![member]) == neighborhood.neighbors(member.0)@,
{
    let f = seq![member];
    assert(f.len() == 1 && f.last() == member);
    assert(f.drop_last() =~= Seq::<(S, Seq<BaseValue>)>::empty());
    assert(frontier_neighbors(neighborhood, f.drop_last()) == Seq::<S>::empty());
    assert(frontier_neighbors(neighborhood, f) == frontier_neighbors(neighborhood, f.drop_last())
        + neighborhood.neighbors(f.last().0)@);
    assert(frontier_neighbors(neighborhood, f) =~= neighborhood.neighbors(member.0)@);
}

/// Whether `p` is where `v` goes into `pool`: every entry before it is strictly below `v`, and
/// the entry at it (if any) is not.
pub open spec fn is_insert_pos<S>(pool: Seq<(S, Seq<BaseValue>)>, v: Seq<BaseValue>, p: int) -> bool {
    &&& 0 <= p <= pool.len()
    &&& forall|k: int| 0 <= k < p ==> lex_cmp(#[trigger] pool[k].1, v) == Some(Ordering::Less)
    &&& p < pool.len() ==> lex_cmp(pool[p].1, v) != Some(Ordering::Less)
}

/// Where `v` goes into `pool`.
pub open spec fn insert_pos<S>(pool: Seq<(S, Seq<BaseValue>)>, v: Seq<BaseValue>) -> int {
    choose|p: int| is_insert_pos(pool, v, p)
}

/// The pool after offering it `e`, cut to `width` entries: `e` goes in before the first entry
/// that is not strictly below it, unless that entry has an equal value (or one that cannot be
/// compared), and nothing goes in at or beyond `width`.
pub open spec fn insert_spec<S>(
    pool: Seq<(S, Seq<BaseValue>)>,
    e: (S, Seq<BaseValue>),
    width: int,
) -> Seq<(S, Seq<BaseValue>)> {
    let p = insert_pos(pool, e.1);
    if p < pool.len() && lex_cmp(pool[p].1, e.1) != Some(Ordering::Greater) {
        pool
    } else if p < width {
        let inserted = pool.insert(p, e);
        if inserted.len() > width {
            inserted.take(width)
        } else {
            inserted
        }
    } else {
        pool
    }
}

/// The pool after offering it every entry of `items` in order, starting from `pool`.
pub open spec fn pool_fold_into<S>(
    pool: Seq<(S, Seq<BaseValue>)>,
    items: Seq<(S, Seq<BaseValue>)>,
    width: int,
) -> Seq<(S, Seq<BaseValue>)>
    decreases items.len(),
{
    if items.len() == 0 {
        pool
    } else {
        insert_spec(pool_fold_into(pool, items.drop_last(), width), items.last(), width)
    }
}

/// The best `width` entries of `items` with distinct objective values, ascending: the pool
/// built by offering every entry in order to an empty pool.
pub open spec fn pool_fold<S>(items: Seq<(S, Seq<BaseValue>)>, width: int) -> Seq<
    (S, Seq<BaseValue>),
> {
    pool_fold_into(Seq::empty(), items, width)
}

proof fn lemma_insert_pos_unique<S>(pool: Seq<(S, Seq<BaseValue>)>, v: Seq<BaseValue>, p: int)
    requires
        is_insert_pos(pool, v, p),
    ensures
        insert_pos(pool, v) == p,
{
    let q = insert_pos(pool, v);
    assert(is_insert_pos(pool, v, q));
    if q < p {
        assert(lex_cmp(pool[q].1, v) == Some(Ordering::Less));
    } else if p < q {
        assert(lex_cmp(pool[p].1, v) == Some(Ordering::Less));
    }
}

/// Offering anything to a pool of width zero leaves it as it is.
pub(crate) proof fn lemma_insert_width_zero<S>(pool: Seq<(S, Seq<BaseValue>)>, e: (S, Seq<BaseValue>))
    requires
        pool.len() == 0,
    ensures
        insert_spec(pool, e, 0) == pool,
{
    assert(is_insert_pos(pool, e.1, 0));
    lemma_insert_pos_unique(pool, e.1, 0);
}

/// What a first-improvement scan of `candidates` returns: the evaluation of the first candidate
/// strictly below `bound`, or `None` where there is none.
pub open spec fn first_below_outcome<S>(
    objective: &Objective<S>,
    candidates: Seq<S>,
    bound: Seq<BaseValue>,
    result: Option<EvaluatedSolution<S>>,
) -> bool {
    let vals = values_of(objective, candidates);
    match result {
        Some(b) => exists|i: int|
            #[trigger] is_first_below(vals, bound, i) && b.sol() == candidates[i] && b.val()
                == vals[i],
        None => none_below(vals, bound),
    }
}

/// Scans `candidates` in order, evaluating each, and returns the first one strictly below
/// `bound`; along the way it keeps the best `width` candidates with distinct objective values.
pub(crate) fn first_below<S>(
    objective: &Objective<S>,
    candidates: Vec<S>,
    bound: &ObjectiveValue,
    width: usize,
) -> (r: (Option<EvaluatedSolution<S>>, Vec<EvaluatedSolution<S>>))
    requires
        forall|s: S| #[trigger] objective.evaluable(s),
    ensures
        first_below_outcome(objective, candidates@, bound@, r.0),
        r.1@.len() <= width,
        forall|i: int| 0 <= i < r.1@.len() ==> objective.evaluates(#[trigger] r.1@[i]),
        strictly_increasing(r.1@),
        r.0 is None ==> pairs_of(r.1@) == pool_fold(evaluated_pairs(objective, candidates@), width as int),
{
    let ghost cs = candidates@;
    let ghost vals = values_of(objective, cs);
    let mut rest = reversed(candidates);
    let total = rest.len();
    let mut pool: Vec<EvaluatedSolution<S>> = Vec::new();
    let mut k: usize = 0;
    while rest.len() > 0
        invariant
            rest@.len() + k == cs.len(),
            cs.len() == total,
            cs == candidates@,
            vals.len() == cs.len(),
            forall|j: int| 0 <= j < rest@.len() ==> #[trigger] rest@[j] == cs[cs.len() - 1 - j],
            vals == values_of(objective, cs),
            forall|s: S| #[trigger] objective.evaluable(s),
            forall|j: int| 0 <= j < k ==> !lex_lt(#[trigger] vals[j], bound@),
            pool@.len() <= width,
            forall|i: int| 0 <= i < pool@.len() ==> objective.evaluates(#[trigger] pool@[i]),
            strictly_increasing(pool@),
            pairs_of(pool@) == pool_fold(evaluated_pairs(objective, cs.take(k as int)), width as int),
            width == 0 ==> pool@.len() == 0,
        decreases rest@.len(),
    {
        let n = rest.pop().unwrap();
        let e = objective.evaluate(n);
        proof {
            assert(n == cs[k as int]);
            assert(vals[k as int] == objective.value_of(cs[k as int]));
        }
        if e.objective_value().lt(bound) {
            proof {
                assert(is_first_below(vals, bound@, k as int));
                assert(is_first_below(values_of(objective, cs), bound@, k as int) && e.sol()
                    == cs[k as int] && e.val() == objective.value_of(cs[k as int]));
                assert(first_below_outcome(objective, cs, bound@, Some(e)));
            }
            return (Some(e), pool);
        }
        let ghost old_pool = pairs_of(pool@);
        proof {
            let t = evaluated_pairs(objective, cs.take(k + 1));
            assert(t.drop_last() =~= evaluated_pairs(objective, cs.take(k as int)));
            assert(t.last() == pair_of(e));
        }
        if width > 0 {
            insert_candidate(objective, &mut pool, e, width);
        } else {
            proof {
                lemma_insert_width_zero(old_pool, pair_of(e));
            }
        }
        k += 1;
    }
    assert(cs.take(k as int) =~= cs);
    assert(first_below_outcome(objective, cs, bound@, None));
    (None, pool)
}

/// Inserts `e` into `pool`, which is kept ordered by objective value without two equal values,
/// and cuts it to `width` entries.
pub(crate) fn insert_candidate<S>(
    objective: &Objective<S>,
    pool: &mut Vec<EvaluatedSolution<S>>,
    e: EvaluatedSolution<S>,
    width: usize,
)
    requires
        width > 0,
        old(pool)@.len() <= width,
        forall|i: int| 0 <= i < old(pool)@.len() ==> objective.evaluates(#[trigger] old(pool)@[i]),
        objective.evaluates(e),
        strictly_increasing(old(pool)@),
    ensures
        final(pool)@.len() <= width,
        forall|i: int| 0 <= i < final(pool)@.len() ==> objective.evaluates(#[trigger] final(pool)@[i]),
        strictly_increasing(final(pool)@),
        pairs_of(final(pool)@) == insert_spec(pairs_of(old(pool)@), pair_of(e), width as int),
{
    let ghost before_pairs = pairs_of(pool@);
    let mut p: usize = 0;
    while p < pool.len() && pool[p].objective_value().lt(e.objective_value())
        invariant
            p <= pool@.len(),
            pool@ == old(pool)@,
            p > 0 ==> lex_lt(pool@[p - 1].val(), e.val()),
            forall|k: int| 0 <= k < p ==> lex_cmp(#[trigger] before_pairs[k].1, e.val()) == Some(Ordering::Less),
            before_pairs == pairs_of(pool@),
        decreases pool@.len() - p,
    {
        p += 1;
    }
    proof {
        assert(is_insert_pos(before_pairs, e.val(), p as int));
        lemma_insert_pos_unique(before_pairs, e.val(), p as int);
    }
    if p < pool.len() {
        match pool[p].objective_value().try_compare(e.objective_value()) {
            Some(Ordering::Greater) => {
                proof {
                    lemma_lex_antisymmetric(pool@[p as int].val(), e.val());
                }
            },
            _ => {
                return;
            },
        }
    }
    if p < width {
        let ghost before = pool@;
        let ghost pe = pair_of(e);
        pool.insert(p, e);
        proof {
            assert(pairs_of(pool@) =~= before_pairs.insert(p as int, pe));
            assert forall|i: int| 0 <= i < pool@.len() - 1 implies lex_lt(
                (#[trigger] pool@[i]).val(),
                pool@[i + 1].val(),
            ) by {
                if i + 1 < p {
                    assert(pool@[i] == before[i] && pool@[i + 1] == before[i + 1]);
                } else if i + 1 == p {
                    assert(pool@[i] == before[i]);
                } else if i == p {
                    assert(pool@[i + 1] == before[i]);
                } else {
                    assert(pool@[i] == before[i - 1] && pool@[i + 1] == before[i]);
                }
            }
        }
        if pool.len() > width {
            let ghost full = pool@;
            pool.truncate(width);
            proof {
                assert(pairs_of(pool@) =~= pairs_of(full).take(width as int));
                assert forall|i: int| 0 <= i < pool@.len() - 1 implies lex_lt(
                    (#[trigger] pool@[i]).val(),
                    pool@[i + 1].val(),
                ) by {
                    assert(pool@[i] == full[i] && pool@[i + 1] == full[i + 1]);
                }
            }
        }
        proof {
            assert forall|i: int| 0 <= i < pool@.len() implies objective.evaluates(
                #[trigger] pool@[i],
            ) by {
                if i > p {
                    assert(pool@[i] == old(pool)@[i - 1]);
                }
            }
        }
    }
}

/// Whether the objective values of `pool` strictly increase from each entry to the next: the
/// pool is ordered and no two neighboring entries have equal values.
pub open spec fn strictly_increasing<S>(pool: Seq<EvaluatedSolution<S>>) -> bool {
    forall|i: int| 0 <= i < pool.len() - 1 ==> lex_lt((#[trigger] pool[i]).val(), pool[i + 1].val())
}

/// Where two objective values compare, swapping them reverses the order.
pub proof fn lemma_lex_antisymmetric(a: Seq<BaseValue>, b: Seq<BaseValue>)
    requires
        lex_cmp(a, b) is Some,
    ensures
        lex_cmp(b, a) == Some(crate::base_value::reverse(lex_cmp(a, b)->0)),
    decreases a.len(),
{
    if a.len() > 0 && b.len() > 0 {
        let o = crate::base_value::base_cmp(a[0], b[0]);
        assert(o is Some);
        assert(crate::base_value::base_cmp(b[0], a[0]) == Some(crate::base_value::reverse(o->0)));
        if o == Some(Ordering::Equal) {
            lemma_lex_antisymmetric(a.drop_first(), b.drop_first());
        }
    }
}

/// Takes the first improving neighbor like [`TakeFirst`]; where there is none, it takes the best
/// `recursion_width` neighbors (distinct by objective value) and searches their neighborhoods
/// in turn, up to `recursion_depth` times. The value to beat stays that of the given solution.
/// Deterministic; no parallelism.
#[verifier::reject_recursive_types(S)]
#[verifier::reject_recursive_types(N)]
pub struct TakeFirstRecursion<S, N: Neighborhood<S> + ?Sized> {
    recursion_depth: u8,
    recursion_width: u8,
    neighborhood: Arc<N>,
    objective: Arc<Objective<S>>,
}

impl<S, N: Neighborhood<S> + ?Sized> TakeFirstRecursion<S, N> {
    /// The neighborhood.
    pub closed spec fn spec_neighborhood(&self) -> &N {
        &*self.neighborhood
    }

    /// The objective.
    pub closed spec fn spec_objective(&self) -> &Objective<S> {
        &*self.objective
    }

    /// The number of recursion levels.
    pub closed spec fn depth(&self) -> u8 {
        self.recursion_depth
    }

    /// Creates a [`TakeFirstRecursion`] that recurses `recursion_depth` times on the best
    /// `recursion_width` neighbors.
    pub fn new(
        recursion_depth: u8,
        recursion_width: u8,
        neighborhood: Arc<N>,
        objective: Arc<Objective<S>>,
    ) -> (r: TakeFirstRecursion<S, N>)
        ensures
            r.spec_neighborhood() == &*neighborhood,
            r.spec_objective() == &*objective,
            r.depth() == recursion_depth,
    {
        TakeFirstRecursion { recursion_depth, recursion_width, neighborhood, objective }
    }

    /// The width of the recursion pools.
    pub closed spec fn width(&self) -> int {
        self.recursion_width as int
    }

    /// Searches the neighborhoods of all of `solutions` for a solution strictly below
    /// `objective_to_beat`, recursing `remaining_recursion` more times on the best neighbors:
    /// the result is the one [`take_first_levels`] gives.
    fn improve_recursion(
        &self,
        solutions: Vec<EvaluatedSolution<S>>,
        objective_to_beat: &ObjectiveValue,
        remaining_recursion: u8,
    ) -> (r: Option<EvaluatedSolution<S>>)
        requires
            forall|s: S| #[trigger] self.spec_objective().evaluable(s),
        ensures
            r is Some ==> lex_lt(r->0.val(), objective_to_beat@) && self.spec_objective().evaluates(
                r->0,
            ),
            match take_first_levels(
                self.spec_neighborhood(),
                self.spec_objective(),
                self.width(),
                pairs_of(solutions@),
                objective_to_beat@,
                remaining_recursion as nat,
            ) {
                Some(found) => r is Some && pair_of(r->0) == found,
                None => r is None,
            },
        decreases remaining_recursion,
    {
        let candidates = frontier_candidates(&*self.neighborhood, &solutions);
        let width: usize = if remaining_recursion > 0 {
            self.recursion_width as usize
        } else {
            0
        };
        let objective: &Objective<S> = &*self.objective;
        proof {
            assert(objective == self.spec_objective());
        }
        let ghost cs = candidates@;
        let (found, pool) = first_below(objective, candidates, objective_to_beat, width);
        let ghost vals = values_of(self.spec_objective(), cs);
        match found {
            Some(b) => {
                proof {
                    let i = choose|i: int|
                        #[trigger] is_first_below(vals, objective_to_beat@, i) && b.sol() == cs[i]
                            && b.val() == vals[i];
                    let j = choose|j: int| is_first_below(vals, objective_to_beat@, j);
                    lemma_first_below_unique(vals, objective_to_beat@, i, j);
                    assert(!none_below(vals, objective_to_beat@));
                }
                Some(b)
            },
            None => {
                if remaining_recursion > 0 {
                    self.improve_recursion(pool, objective_to_beat, remaining_recursion - 1)
                } else {
                    None
                }
            },
        }
    }
}

/// The first position below `bound` is unique.
pub proof fn lemma_first_below_unique(vals: Seq<Seq<BaseValue>>, bound: Seq<BaseValue>, i: int, j: int)
    requires
        is_first_below(vals, bound, i),
        is_first_below(vals, bound, j),
    ensures
        i == j,
{
    if i < j {
        assert(!lex_lt(vals[i], bound));
    } else if j < i {
        assert(!lex_lt(vals[j], bound));
    }
}

/// The result of a first-improvement search with recursion from `frontier`: at each level the
/// neighbors of all frontier members are scanned in order; the first one strictly below
/// `bound` is the result; where none is, and `remaining` levels are left, the next frontier is
/// the best `width` scanned neighbors with distinct values ([`pool_fold`]; see
/// [`lemma_pool_holds_smallest`]); with no level left,
/// `None`.
pub open spec fn take_first_levels<S, N: Neighborhood<S> + ?Sized>(
    neighborhood: &N,
    objective: &Objective<S>,
    width: int,
    frontier: Seq<(S, Seq<BaseValue>)>,
    bound: Seq<BaseValue>,
    remaining: nat,
) -> Option<(S, Seq<BaseValue>)>
    decreases remaining,
{
    let candidates = frontier_neighbors(neighborhood, frontier);
    let vals = values_of(objective, candidates);
    if !none_below(vals, bound) {
        let i = choose|i: int| is_first_below(vals, bound, i);
        Some((candidates[i], vals[i]))
    } else if remaining == 0 {
        None
    } else {
        take_first_levels(
            neighborhood,
            objective,
            width,
            pool_fold(evaluated_pairs(objective, candidates), width),
            bound,
            (remaining - 1) as nat,
        )
    }
}

/// Where a value is below the bound, some position is the first one below it.
proof fn lemma_some_first_below(vals: Seq<Seq<BaseValue>>, bound: Seq<BaseValue>)
    requires
        !none_below(vals, bound),
    ensures
        exists|i: int| is_first_below(vals, bound, i),
    decreases vals.len(),
{
    if lex_lt(vals[0], bound) {
        assert(is_first_below(vals, bound, 0));
    } else {
        let rest = vals.drop_first();
        assert(!none_below(rest, bound)) by {
            let j = choose|j: int| 0 <= j < vals.len() && lex_lt(#[trigger] vals[j], bound);
            assert(rest[j - 1] == vals[j]);
        }
        lemma_some_first_below(rest, bound);
        let i = choose|i: int| is_first_below(rest, bound, i);
        assert(is_first_below(vals, bound, i + 1)) by {
            assert forall|k: int| 0 <= k < i + 1 implies !lex_lt(#[trigger] vals[k], bound) by {
                if k > 0 {
                    assert(vals[k] == rest[k - 1]);
                }
            }
        }
    }
}

/// What [`TakeFirstRecursion`] returns for `solution`: the result of [`take_first_levels`] from
/// the frontier that holds `solution` alone, with the solution's value to beat.
pub open spec fn take_first_recursion_outcome<S, N: Neighborhood<S> + ?Sized>(
    neighborhood: &N,
    objective: &Objective<S>,
    depth: u8,
    width: int,
    solution: EvaluatedSolution<S>,
    result: Option<EvaluatedSolution<S>>,
) -> bool {
    match take_first_levels(
        neighborhood,
        objective,
        width,
        seq![pair_of(solution)],
        solution.val(),
        depth as nat,
    ) {
        Some(found) => result is Some && pair_of(result->0) == found,
        None => result is None,
    }
}

impl<S, N: Neighborhood<S> + ?Sized> LocalImprover<S> for TakeFirstRecursion<S, N> {
    open spec fn ready(&self) -> bool {
        forall|s: S| #[trigger] self.spec_objective().evaluable(s)
    }

    open spec fn outcome(
        &self,
        solution: EvaluatedSolution<S>,
        result: Option<EvaluatedSolution<S>>,
    ) -> bool {
        take_first_recursion_outcome(
            self.spec_neighborhood(),
            self.spec_objective(),
            self.depth(),
            self.width(),
            solution,
            result,
        )
    }

    fn improve(&self, solution: &EvaluatedSolution<S>) -> (r: Option<EvaluatedSolution<S>>) {
        let neighbors = self.neighborhood.neighbors_of(solution.solution());
        let ghost ns = neighbors@;
        let objective: &Objective<S> = &*self.objective;
        proof {
            assert(objective == self.spec_objective());
            assert(forall|s: S| #[trigger] self.spec_objective().evaluable(s));
            lemma_singleton_frontier(self.spec_neighborhood(), pair_of(*solution));
        }
        let width: usize = if self.recursion_depth > 0 {
            self.recursion_width as usize
        } else {
            0
        };
        let (found, pool) = first_below(objective, neighbors, solution.objective_value(), width);
        let ghost vals = values_of(self.spec_objective(), ns);
        match found {
            Some(b) => {
                proof {
                    let i = choose|i: int|
                        #[trigger] is_first_below(vals, solution.val(), i) && b.sol() == ns[i]
                            && b.val() == vals[i];
                    let j = choose|j: int| is_first_below(vals, solution.val(), j);
                    lemma_first_below_unique(vals, solution.val(), i, j);
                    assert(!none_below(vals, solution.val()));
                }
                Some(b)
            },
            None => {
                if self.recursion_depth > 0 {
                    self.improve_recursion(
                        pool,
                        solution.objective_value(),
                        self.recursion_depth - 1,
                    )
                } else {
                    None
                }
            },
        }
    }
}

/// Whether the order of objective values is a total order on the values of `vals` and `bound`:
/// any two compare, swapping reverses the order, and it is transitive.
pub open spec fn totally_ordered(vals: Seq<Seq<BaseValue>>, bound: Seq<BaseValue>) -> bool {
    totally_ordered_set(vals.push(bound))
}

/// Whether the order of objective values is a total order on `all`: any two compare, swapping
/// reverses the order, and it is transitive.
pub open spec fn totally_ordered_set(all: Seq<Seq<BaseValue>>) -> bool {
    &&& forall|i: int, j: int|
        0 <= i < all.len() && 0 <= j < all.len() ==> (#[trigger] lex_cmp(all[i], all[j])) is Some
            && lex_cmp(all[j], all[i])->0 == crate::base_value::reverse(
            lex_cmp(all[i], all[j])->0,
        )
    &&& forall|i: int, j: int, k: int|
        0 <= i < all.len() && 0 <= j < all.len() && 0 <= k < all.len() && #[trigger] lex_le(
            all[i],
            all[j],
        ) && #[trigger] lex_le(all[j], all[k]) ==> lex_le(all[i], all[k]) && (lex_lt(all[i], all[j])
            || lex_lt(all[j], all[k]) ==> lex_lt(all[i], all[k]))
}

/// A total order on a sequence with one more value is a total order on the sequence.
pub proof fn lemma_totally_ordered_prefix(vals: Seq<Seq<BaseValue>>, bound: Seq<BaseValue>)
    requires
        totally_ordered(vals, bound),
    ensures
        totally_ordered_set(vals),
{
    let all = vals.push(bound);
    assert(forall|i: int| 0 <= i < vals.len() ==> #[trigger] all[i] == vals[i]);
    assert forall|i: int, j: int|
        0 <= i < vals.len() && 0 <= j < vals.len() implies (#[trigger] lex_cmp(vals[i], vals[j])) is Some
            && lex_cmp(vals[j], vals[i])->0 == crate::base_value::reverse(
            lex_cmp(vals[i], vals[j])->0,
        ) by {
        assert(all[i] == vals[i] && all[j] == vals[j]);
        assert(lex_cmp(all[i], all[j]) is Some);
    }
    assert forall|i: int, j: int, k: int|
        0 <= i < vals.len() && 0 <= j < vals.len() && 0 <= k < vals.len() && #[trigger] lex_le(
            vals[i],
            vals[j],
        ) && #[trigger] lex_le(vals[j], vals[k]) implies lex_le(vals[i], vals[k]) && (lex_lt(
            vals[i],
            vals[j],
        ) || lex_lt(vals[j], vals[k]) ==> lex_lt(vals[i], vals[k])) by {
        assert(all[i] == vals[i] && all[j] == vals[j] && all[k] == vals[k]);
        assert(lex_le(all[i], all[j]) && lex_le(all[j], all[k]));
    }
}

/// Under a total order, the running minimum is at most every value.
proof fn lemma_running_min_is_minimum(vals: Seq<Seq<BaseValue>>, bound: Seq<BaseValue>, n: int)
    requires
        1 <= n <= vals.len(),
        totally_ordered(vals, bound),
    ensures
        0 <= running_min(vals.take(n)) < n,
        forall|j: int| 0 <= j < n ==> lex_le(vals[running_min(vals.take(n))], #[trigger] vals[j]),
    decreases n,
{
    let all = vals.push(bound);
    assert(forall|j: int| 0 <= j < vals.len() ==> all[j] == vals[j]);
    let t = vals.take(n);
    if n == 1 {
        assert(lex_cmp(all[0], all[0]) is Some);
        assert(lex_le(vals[0], vals[0]));
    } else {
        lemma_running_min_is_minimum(vals, bound, n - 1);
        assert(t.drop_last() =~= vals.take(n - 1));
        let m1 = running_min(vals.take(n - 1));
        let x = vals[n - 1];
        assert(lex_cmp(all[m1], all[n - 1]) is Some);
        if lex_cmp(vals[m1], x) == Some(Ordering::Greater) {
            assert(lex_cmp(all[n - 1], all[m1]) == Some(Ordering::Less));
            assert forall|j: int| 0 <= j < n implies lex_le(x, #[trigger] vals[j]) by {
                if j < n - 1 {
                    assert(lex_le(all[m1], all[j]));
                    assert(lex_le(all[n - 1], all[m1]));
                } else {
                    assert(lex_cmp(all[n - 1], all[n - 1]) is Some);
                }
            }
        } else {
            assert forall|j: int| 0 <= j < n implies lex_le(vals[m1], #[trigger] vals[j]) by {
                if j == n - 1 {
                    assert(lex_le(all[m1], all[n - 1]));
                }
            }
        }
    }
}

/// Where the minimizer finds an improvement, the first-improvement search with recursion finds
/// one too (at any depth). Without recursion, and where the objective values of the neighbors
/// and of the solution are totally ordered, the two find an improvement on the same inputs.
pub proof fn lemma_take_first_recursion_agrees_with_minimizer<S, N: Neighborhood<S> + ?Sized>(
    minimizer: &Minimizer<S, N>,
    take_first: &TakeFirstRecursion<S, N>,
    solution: EvaluatedSolution<S>,
    minimizer_result: Option<EvaluatedSolution<S>>,
    take_first_result: Option<EvaluatedSolution<S>>,
)
    requires
        minimizer.spec_neighborhood() == take_first.spec_neighborhood(),
        minimizer.spec_objective() == take_first.spec_objective(),
        minimizer.outcome(solution, minimizer_result),
        take_first.outcome(solution, take_first_result),
    ensures
        minimizer_result is Some ==> take_first_result is Some,
        take_first.depth() == 0 && totally_ordered(
            values_of(
                minimizer.spec_objective(),
                minimizer.spec_neighborhood().neighbors(solution.sol())@,
            ),
            solution.val(),
        ) ==> (minimizer_result is None <==> take_first_result is None),
{
    let ns = minimizer.spec_neighborhood().neighbors(solution.sol())@;
    let vals = values_of(minimizer.spec_objective(), ns);
    let m = running_min(vals);
    lemma_singleton_frontier(take_first.spec_neighborhood(), pair_of(solution));
    if !none_below(vals, solution.val()) {
        lemma_some_first_below(vals, solution.val());
    }
    if minimizer_result is Some {
        assert(vals.len() == ns.len());
        lemma_running_min_bounds(vals);
        assert(lex_lt(vals[m], solution.val()));
        assert(!none_below(vals, solution.val()));
    }
    if take_first.depth() == 0 && totally_ordered(vals, solution.val()) && take_first_result is Some {
        assert(!none_below(vals, solution.val()));
        let i = choose|i: int| 0 <= i < vals.len() && !!lex_lt(#[trigger] vals[i], solution.val());
        lemma_running_min_is_minimum(vals, solution.val(), vals.len() as int);
        assert(vals.take(vals.len() as int) =~= vals);
        let all = vals.push(solution.val());
        assert(all[m] == vals[m] && all[i] == vals[i] && all[vals.len() as int] == solution.val());
        assert(lex_le(all[m], all[i]));
        assert(lex_le(all[i], all[vals.len() as int]));
        assert(lex_lt(vals[m], solution.val()));
    }
}

/// The objective values of a sequence of pairs.
pub open spec fn values_in<S>(items: Seq<(S, Seq<BaseValue>)>) -> Seq<Seq<BaseValue>> {
    items.map_values(|p: (S, Seq<BaseValue>)| p.1)
}

/// Whether every entry of `pool` has the value of some entry of `items`.
pub open spec fn values_from<S>(pool: Seq<(S, Seq<BaseValue>)>, items: Seq<(S, Seq<BaseValue>)>) -> bool {
    forall|i: int|
        #![trigger pool[i]]
        0 <= i < pool.len() ==> exists|j: int| 0 <= j < items.len() && #[trigger] items[j] == pool[i]
}

/// Whether the values of `pool` strictly increase from each entry to the next.
pub open spec fn ascending<S>(pool: Seq<(S, Seq<BaseValue>)>) -> bool {
    forall|i: int| 0 <= i < pool.len() - 1 ==> lex_lt(#[trigger] pool[i].1, pool[i + 1].1)
}

/// Whether `v` is kept by `pool` of width `width`: some entry has a value equal to `v`, or the
/// pool is full and its largest value is strictly below `v`.
pub open spec fn covered<S>(pool: Seq<(S, Seq<BaseValue>)>, width: int, v: Seq<BaseValue>) -> bool {
    ||| exists|i: int| 0 <= i < pool.len() && lex_cmp(#[trigger] pool[i].1, v) == Some(Ordering::Equal)
    ||| pool.len() == width && (width == 0 || lex_lt(pool.last().1, v))
}

proof fn lemma_insert_pos_exists<S>(pool: Seq<(S, Seq<BaseValue>)>, v: Seq<BaseValue>)
    ensures
        is_insert_pos(pool, v, insert_pos(pool, v)),
    decreases pool.len(),
{
    if pool.len() == 0 {
        assert(is_insert_pos(pool, v, 0));
    } else if lex_cmp(pool[0].1, v) != Some(Ordering::Less) {
        assert(is_insert_pos(pool, v, 0));
    } else {
        let rest = pool.drop_first();
        lemma_insert_pos_exists(rest, v);
        let q = insert_pos(rest, v);
        assert forall|k: int| 0 <= k < q + 1 implies lex_cmp(#[trigger] pool[k].1, v) == Some(Ordering::Less) by {
            if k > 0 {
                assert(pool[k] == rest[k - 1]);
            }
        }
        if q < rest.len() {
            assert(pool[q + 1] == rest[q]);
        }
        assert(is_insert_pos(pool, v, q + 1));
    }
}

/// Facts of a total order on the values of `items`, for three of them.
proof fn lemma_order3<S>(items: Seq<(S, Seq<BaseValue>)>, a: int, b: int, c: int)
    requires
        totally_ordered_set(values_in(items)),
        0 <= a < items.len(),
        0 <= b < items.len(),
        0 <= c < items.len(),
    ensures
        lex_cmp(items[a].1, items[b].1) is Some,
        lex_cmp(items[b].1, items[a].1) == Some(crate::base_value::reverse(lex_cmp(items[a].1, items[b].1)->0)),
        lex_le(items[a].1, items[b].1) && lex_le(items[b].1, items[c].1) ==> lex_le(items[a].1, items[c].1),
        (lex_lt(items[a].1, items[b].1) && lex_le(items[b].1, items[c].1)) ==> lex_lt(items[a].1, items[c].1),
        (lex_le(items[a].1, items[b].1) && lex_lt(items[b].1, items[c].1)) ==> lex_lt(items[a].1, items[c].1),
{
    let vs = values_in(items);
    assert(vs[a] == items[a].1 && vs[b] == items[b].1 && vs[c] == items[c].1);
    assert(lex_cmp(vs[a], vs[b]) is Some);
    if lex_le(vs[a], vs[b]) && lex_le(vs[b], vs[c]) {
        assert(lex_le(vs[a], vs[c]));
    }
}

proof fn lemma_value_index<S>(pool: Seq<(S, Seq<BaseValue>)>, items: Seq<(S, Seq<BaseValue>)>, i: int) -> (j: int)
    requires
        values_from(pool, items),
        0 <= i < pool.len(),
    ensures
        0 <= j < items.len(),
        items[j] == pool[i],
{
    choose|j: int| 0 <= j < items.len() && #[trigger] items[j] == pool[i]
}

proof fn lemma_ascending_chain<S>(
    pool: Seq<(S, Seq<BaseValue>)>,
    items: Seq<(S, Seq<BaseValue>)>,
    a: int,
    b: int,
)
    requires
        ascending(pool),
        values_from(pool, items),
        totally_ordered_set(values_in(items)),
        0 <= a < b < pool.len(),
    ensures
        lex_lt(pool[a].1, pool[b].1),
    decreases b - a,
{
    if b > a + 1 {
        lemma_ascending_chain(pool, items, a, b - 1);
        let c = b - 1;
        assert(lex_lt(pool[c].1, pool[c + 1].1));
        let ja = lemma_value_index(pool, items, a);
        let jc = lemma_value_index(pool, items, c);
        let jb = lemma_value_index(pool, items, b);
        lemma_order3(items, ja, jc, jb);
    } else {
        assert(lex_lt(pool[a].1, pool[a + 1].1));
    }
}

/// Under a total order on the values of the scanned candidates `items`, the pool of width
/// `width` ([`pool_fold`]) holds the smallest distinct values: its entries are scanned
/// candidates in ascending order of value without two equal values, at most `width` of them,
/// and every scanned value equals the value of an entry, or the pool is full and every entry is
/// strictly below it.
#[verifier::rlimit(100)]
#[verifier::spinoff_prover]
pub proof fn lemma_pool_holds_smallest<S>(items: Seq<(S, Seq<BaseValue>)>, width: int)
    requires
        width >= 0,
        totally_ordered_set(values_in(items)),
    ensures
        pool_fold(items, width).len() <= width,
        values_from(pool_fold(items, width), items),
        ascending(pool_fold(items, width)),
        forall|j: int| 0 <= j < items.len() ==> covered(pool_fold(items, width), width, #[trigger] items[j].1),
    decreases items.len(),
{
    let pool = pool_fold(items, width);
    if items.len() == 0 {
        assert(pool =~= Seq::<(S, Seq<BaseValue>)>::empty());
    } else {
        let front = items.drop_last();
        let e = items.last();
        let n = items.len() - 1;
        assert(values_in(items) =~= values_in(front).push(e.1));
        lemma_totally_ordered_prefix(values_in(front), e.1);
        lemma_pool_holds_smallest(front, width);
        let old_pool = pool_fold(front, width);
        assert(items[n] == e);
        assert forall|j: int| 0 <= j < front.len() implies #[trigger] front[j] == items[j] by {}
        assert(values_from(old_pool, items)) by {
            assert forall|i: int|
                #![trigger old_pool[i]]
                0 <= i < old_pool.len() implies exists|j: int|
                0 <= j < items.len() && #[trigger] items[j] == old_pool[i] by {
                let j = lemma_value_index(old_pool, front, i);
                assert(items[j] == old_pool[i]);
            }
        }
        lemma_insert_pos_exists(old_pool, e.1);
        let p = insert_pos(old_pool, e.1);
        assert(pool == insert_spec(old_pool, e, width));
        if p < old_pool.len() && lex_cmp(old_pool[p].1, e.1) != Some(Ordering::Greater) {
            assert(pool == old_pool);
            let jp = lemma_value_index(old_pool, items, p);
            lemma_order3(items, jp, n, n);
            assert(lex_cmp(old_pool[p].1, e.1) == Some(Ordering::Equal));
            assert forall|j: int| 0 <= j < items.len() implies covered(pool, width, #[trigger] items[j].1) by {
                if j < n {
                    assert(covered(old_pool, width, front[j].1));
                }
            }
        } else if p < width {
            let q = old_pool.insert(p, e);
            assert(pool == if q.len() > width { q.take(width) } else { q });
            // q is ascending
            if p < old_pool.len() {
                let jp = lemma_value_index(old_pool, items, p);
                lemma_order3(items, jp, n, n);
                lemma_lex_antisymmetric(old_pool[p].1, e.1);
            }
            assert forall|i: int| 0 <= i < q.len() - 1 implies lex_lt(#[trigger] q[i].1, q[i + 1].1) by {
                if i + 1 < p {
                    assert(q[i] == old_pool[i] && q[i + 1] == old_pool[i + 1]);
                } else if i + 1 == p {
                    assert(q[i] == old_pool[i] && q[i + 1] == e);
                } else if i == p {
                    assert(q[i] == e && q[i + 1] == old_pool[i]);
                } else {
                    assert(q[i] == old_pool[i - 1] && q[i + 1] == old_pool[i]);
                }
            }
            assert(values_from(q, items)) by {
                assert forall|i: int|
                #![trigger q[i]]
                0 <= i < q.len() implies exists|j: int|
                    0 <= j < items.len() && #[trigger] items[j] == q[i] by {
                    if i < p {
                        let j = lemma_value_index(old_pool, items, i);
                        assert(items[j] == q[i]);
                    } else if i == p {
                        assert(items[n] == q[i]);
                    } else {
                        let j = lemma_value_index(old_pool, items, i - 1);
                        assert(items[j] == q[i]);
                    }
                }
            }
            assert(values_from(pool, items)) by {
                assert forall|i: int|
                #![trigger pool[i]]
                0 <= i < pool.len() implies exists|j: int|
                    0 <= j < items.len() && #[trigger] items[j] == pool[i] by {
                    let j = lemma_value_index(q, items, i);
                    assert(items[j] == pool[i]);
                }
            }
            assert(ascending(pool)) by {
                assert forall|i: int| 0 <= i < pool.len() - 1 implies lex_lt(#[trigger] pool[i].1, pool[i + 1].1) by {
                    assert(pool[i] == q[i] && pool[i + 1] == q[i + 1]);
                }
            }
            let je = n;
            assert forall|j: int| 0 <= j < items.len() implies covered(pool, width, #[trigger] items[j].1) by {
                if j == n {
                    assert(pool[p] == e);
                    lemma_order3(items, n, n, n);
                    assert(lex_cmp(pool[p].1, items[j].1) == Some(Ordering::Equal));
                } else {
                    assert(covered(old_pool, width, front[j].1));
                    assert(front[j] == items[j]);
                    if exists|i: int| 0 <= i < old_pool.len() && lex_cmp(#[trigger] old_pool[i].1, items[j].1) == Some(Ordering::Equal) {
                        let i = choose|i: int| 0 <= i < old_pool.len() && lex_cmp(#[trigger] old_pool[i].1, items[j].1) == Some(Ordering::Equal);
                        let i2 = if i < p { i } else { i + 1 };
                        assert(q[i2] == old_pool[i]);
                        if i2 < pool.len() {
                            assert(pool[i2] == q[i2]);
                        } else {
                            assert(q.len() > width && pool.len() == width);
                            lemma_ascending_chain(q, items, width - 1, i2);
                            assert(pool.last() == q[width - 1]);
                            let ja = lemma_value_index(q, items, width - 1);
                            let jb = lemma_value_index(q, items, i2);
                            lemma_order3(items, ja, jb, j);
                        }
                    } else {
                        assert(old_pool.len() == width && (width == 0 || lex_lt(old_pool.last().1, items[j].1)));
                        assert(width > 0);
                        assert(q.len() == width + 1 && pool.len() == width);
                        assert(q[width] == old_pool.last()) by {
                            if p < width {
                                assert(q[width] == old_pool[width - 1]);
                            }
                        }
                        lemma_ascending_chain(q, items, width - 1, width);
                        assert(pool.last() == q[width - 1]);
                        let ja = lemma_value_index(q, items, width - 1);
                        let jb = lemma_value_index(q, items, width);
                        lemma_order3(items, ja, jb, j);
                    }
                }
            }
        } else {
            assert(pool == old_pool);
            assert(p == old_pool.len() && old_pool.len() == width);
            assert forall|j: int| 0 <= j < items.len() implies covered(pool, width, #[trigger] items[j].1) by {
                if j < n {
                    assert(covered(old_pool, width, front[j].1));
                } else if width > 0 {
                    assert(lex_cmp(old_pool[width - 1].1, e.1) == Some(Ordering::Less));
                }
            }
        }
    }
}

} // verus!
