//! The hierarchical objective of an optimization problem: levels of linear combinations of
//! indicators, evaluated into an [`ObjectiveValue`] per solution.
use crate::base_value::{base_cmp, base_sum, BaseValue};
use crate::coefficient::{scaled, Coefficient};
use crate::objective_value::{lex_cmp, repeated, ObjectiveValue};
use std::cmp::Ordering;
use vstd::prelude::*;

verus! {

/// An atomic quality of a solution, such as a total distance or a number of violations.
pub trait Indicator<S>: Send + Sync {
    /// The value that the indicator gives `solution`.
    spec fn value(&self, solution: S) -> BaseValue;

    /// Evaluates `solution`; the result depends on the solution alone.
    fn evaluate(&self, solution: &S) -> (r: BaseValue)
        ensures
            r == self.value(*solution),
    ;

    /// The name of the indicator, used to display objective values.
    fn name(&self) -> String;
}

/// The value of a sum of weighted indicators on `s`, added from the left starting at `Zero`;
/// `None` where a product or a sum is undefined (kinds that do not match, or too large).
pub open spec fn combination_value<S>(
    summands: Seq<(Coefficient, Box<dyn Indicator<S>>)>,
    s: S,
) -> Option<BaseValue>
    decreases summands.len(),
{
    if summands.len() == 0 {
        Some(BaseValue::Zero)
    } else {
        match (
            combination_value(summands.drop_last(), s),
            scaled(summands.last().0, summands.last().1.value(s)),
        ) {
            (Some(t), Some(p)) => base_sum(t, p),
            _ => None,
        }
    }
}

/// A linear combination of indicators, each with a [`Coefficient`]; one level of an
/// [`Objective`].
#[verifier::reject_recursive_types(S)]
pub struct LinearCombination<S> {
    summands: Vec<(Coefficient, Box<dyn Indicator<S>>)>,
}

/// A level of the objective hierarchy.
pub type Level<S> = LinearCombination<S>;

impl<S> LinearCombination<S> {
    /// The value of the combination on `s`, or `None` where it is undefined.
    pub closed spec fn value(&self, s: S) -> Option<BaseValue> {
        combination_value(self.summands@, s)
    }

    /// Creates a linear combination from its summands.
    pub fn new(summands: Vec<(Coefficient, Box<dyn Indicator<S>>)>) -> (r: LinearCombination<S>)
        ensures
            forall|s: S| #[trigger] r.value(s) == combination_value(summands@, s),
            r.coefficients() == summands@.map_values(|p: (Coefficient, Box<dyn Indicator<S>>)| p.0),
            r.summand_count() == summands@.len(),
    {
        LinearCombination { summands }
    }

    /// Evaluates the linear combination on `solution`.
    pub fn evaluate(&self, solution: &S) -> (r: BaseValue)
        requires
            self.value(*solution) is Some,
        ensures
            Some(r) == self.value(*solution),
    {
        let mut total = BaseValue::Zero;
        let mut i: usize = 0;
        proof {
            lemma_combination_prefix(self.summands@, *solution, 0);
        }
        while i < self.summands.len()
            invariant
                i <= self.summands@.len(),
                combination_value(self.summands@, *solution) is Some,
                Some(total) == combination_value(self.summands@.take(i as int), *solution),
            decreases self.summands@.len() - i,
        {
            proof {
                assert(self.summands@.take(i + 1).drop_last() =~= self.summands@.take(i as int));
                lemma_combination_prefix(self.summands@, *solution, i + 1);
            }
            let (coefficient, indicator) = &self.summands[i];
            let v = indicator.evaluate(solution);
            let p = coefficient.mul(v);
            total = total.add(p);
            i += 1;
        }
        assert(self.summands@.take(self.summands@.len() as int) =~= self.summands@);
        total
    }

    /// The number of summands.
    pub closed spec fn summand_count(&self) -> nat {
        self.summands@.len()
    }

    /// The coefficients of the summands, in order.
    pub closed spec fn coefficients(&self) -> Seq<Coefficient> {
        self.summands@.map_values(|p: (Coefficient, Box<dyn Indicator<S>>)| p.0)
    }

    /// The coefficient and indicator name of each summand, in order.
    pub fn description(&self) -> (r: Vec<(Coefficient, String)>)
        ensures
            r@.len() == self.summand_count(),
            forall|i: int| 0 <= i < r@.len() ==> (#[trigger] r@[i]).0 == self.coefficients()[i],
    {
        let mut v: Vec<(Coefficient, String)> = Vec::new();
        let mut i: usize = 0;
        while i < self.summands.len()
            invariant
                i <= self.summands@.len(),
                v@.len() == i,
                forall|k: int| 0 <= k < i ==> (#[trigger] v@[k]).0 == self.coefficients()[k],
            decreases self.summands@.len() - i,
        {
            let (coefficient, indicator) = &self.summands[i];
            v.push((*coefficient, indicator.name()));
            i += 1;
        }
        v
    }
}

proof fn lemma_combination_prefix<S>(
    summands: Seq<(Coefficient, Box<dyn Indicator<S>>)>,
    s: S,
    i: int,
)
    requires
        0 <= i <= summands.len(),
        combination_value(summands, s) is Some,
    ensures
        combination_value(summands.take(i), s) is Some,
    decreases summands.len() - i,
{
    if i < summands.len() {
        lemma_combination_prefix(summands, s, i + 1);
        assert(summands.take(i + 1).drop_last() =~= summands.take(i));
    } else {
        assert(summands.take(i) =~= summands);
    }
}

/// A solution together with its [`ObjectiveValue`]. The order of evaluated solutions is the
/// order of their objective values.
pub struct EvaluatedSolution<S> {
    objective_value: ObjectiveValue,
    solution: S,
}

impl<S> EvaluatedSolution<S> {
    /// The solution.
    pub closed spec fn sol(&self) -> S {
        self.solution
    }

    /// The levels of the objective value.
    pub closed spec fn val(&self) -> Seq<BaseValue> {
        self.objective_value@
    }

    /// The objective value.
    pub closed spec fn ov(&self) -> ObjectiveValue {
        self.objective_value
    }

    /// Pairs a solution with its objective value.
    pub fn new(solution: S, objective_value: ObjectiveValue) -> (r: EvaluatedSolution<S>)
        ensures
            r.sol() == solution,
            r.val() == objective_value@,
    {
        EvaluatedSolution { solution, objective_value }
    }

    /// The solution.
    pub fn solution(&self) -> (r: &S)
        ensures
            *r == self.sol(),
    {
        &self.solution
    }

    /// The objective value.
    pub fn objective_value(&self) -> (r: &ObjectiveValue)
        ensures
            r@ == self.val(),
            *r == self.ov(),
    {
        &self.objective_value
    }

    /// Takes the solution out.
    pub fn into_solution(self) -> (r: S)
        ensures
            r == self.sol(),
    {
        self.solution
    }

    /// Whether the objective value of `self` is strictly smaller than `bound`.
    pub fn is_below(&self, bound: &ObjectiveValue) -> (r: bool)
        ensures
            r == (lex_cmp(self.val(), bound@) == Some(Ordering::Less)),
    {
        self.objective_value.lt(bound)
    }

    /// Whether the objective value of `self` is strictly smaller than that of `other`.
    pub fn is_better_than(&self, other: &EvaluatedSolution<S>) -> (r: bool)
        ensures
            r == (lex_cmp(self.val(), other.val()) == Some(Ordering::Less)),
    {
        self.objective_value.lt(&other.objective_value)
    }
}

/// Whether cloning a solution always gives an equal solution.
pub open spec fn clones_faithfully<S: Clone>() -> bool {
    forall|a: S, b: S| #[trigger] vstd::pervasive::cloned(a, b) ==> a == b
}

impl<S: Clone> Clone for EvaluatedSolution<S> {
    fn clone(&self) -> (r: EvaluatedSolution<S>)
        ensures
            r.val() == self.val(),
            vstd::pervasive::cloned(self.sol(), r.sol()),
    {
        EvaluatedSolution {
            objective_value: self.objective_value.clone(),
            solution: self.solution.clone(),
        }
    }
}

/// The objective of an optimization problem: a hierarchy of [`LinearCombination`]s, the most
/// important first, to be minimized lexicographically. It stays the same throughout a run.
#[verifier::reject_recursive_types(S)]
pub struct Objective<S> {
    hierarchy_levels: Vec<LinearCombination<S>>,
}

impl<S> Objective<S> {
    /// The number of levels.
    pub closed spec fn levels(&self) -> nat {
        self.hierarchy_levels@.len()
    }

    /// Whether every level is defined on `s`.
    pub closed spec fn evaluable(&self, s: S) -> bool {
        forall|i: int|
            0 <= i < self.hierarchy_levels@.len() ==> (#[trigger] self.hierarchy_levels@[i].value(
                s,
            )) is Some
    }

    /// The objective value of `s`: the value of each level, the most important first.
    pub closed spec fn value_of(&self, s: S) -> Seq<BaseValue> {
        Seq::new(self.levels(), |i: int| self.hierarchy_levels@[i].value(s)->0)
    }

    /// An objective value has one entry per level.
    pub proof fn lemma_value_length(&self, s: S)
        ensures
            self.value_of(s).len() == self.levels(),
    {
    }

    /// Whether `e` pairs a solution with its objective value.
    pub open spec fn evaluates(&self, e: EvaluatedSolution<S>) -> bool {
        e.val() == self.value_of(e.sol())
    }

    /// Evaluates `solution` and pairs it with its objective value.
    pub fn evaluate(&self, solution: S) -> (r: EvaluatedSolution<S>)
        requires
            self.evaluable(solution),
        ensures
            r.sol() == solution,
            r.val() == self.value_of(solution),
            r.val().len() == self.levels(),
    {
        let mut values: Vec<BaseValue> = Vec::new();
        let mut i: usize = 0;
        while i < self.hierarchy_levels.len()
            invariant
                i <= self.hierarchy_levels@.len(),
                self.evaluable(solution),
                values@ =~= self.value_of(solution).take(i as int),
            decreases self.hierarchy_levels@.len() - i,
        {
            assert(self.hierarchy_levels@[i as int].value(solution) is Some);
            values.push(self.hierarchy_levels[i].evaluate(&solution));
            i += 1;
            assert(values@ =~= self.value_of(solution).take(i as int));
        }
        assert(self.value_of(solution).take(i as int) =~= self.value_of(solution));
        EvaluatedSolution::new(solution, ObjectiveValue::new(values))
    }

    /// The objective value with `Zero` on every level.
    pub fn zero(&self) -> (r: ObjectiveValue)
        ensures
            r@ == repeated(BaseValue::Zero, self.levels()),
    {
        ObjectiveValue::repeat(BaseValue::Zero, self.hierarchy_levels.len())
    }

    /// The objective value with `Maximum` on every level.
    pub fn maximum(&self) -> (r: ObjectiveValue)
        ensures
            r@ == repeated(BaseValue::Maximum, self.levels()),
    {
        ObjectiveValue::repeat(BaseValue::Maximum, self.hierarchy_levels.len())
    }

    /// The levels of the objective.
    pub fn hierarchy_levels(&self) -> (r: &Vec<LinearCombination<S>>)
        ensures
            r@.len() == self.levels(),
            forall|s: S, i: int|
                0 <= i < r@.len() && self.evaluable(s) ==> Some(#[trigger] self.value_of(s)[i])
                    == r@[i].value(s),
    {
        &self.hierarchy_levels
    }

    /// Creates an objective from its levels, the most important first.
    pub fn new(hierarchy_levels: Vec<LinearCombination<S>>) -> (r: Objective<S>)
        ensures
            r.levels() == hierarchy_levels@.len(),
            forall|s: S|
                #[trigger] r.evaluable(s) <==> (forall|i: int|
                    0 <= i < hierarchy_levels@.len() ==> (#[trigger] hierarchy_levels@[i].value(
                        s,
                    )) is Some),
            forall|s: S, i: int|
                0 <= i < hierarchy_levels@.len() && r.evaluable(s) ==> Some(
                    #[trigger] r.value_of(s)[i],
                ) == hierarchy_levels@[i].value(s),
    {
        Objective { hierarchy_levels }
    }

    /// Creates an objective of a single level.
    pub fn new_single_level(linear_combination: LinearCombination<S>) -> (r: Objective<S>)
        ensures
            r.levels() == 1,
            forall|s: S| #[trigger] r.evaluable(s) <==> linear_combination.value(s) is Some,
            forall|s: S| r.evaluable(s) ==> Some(#[trigger] r.value_of(s)[0]) == linear_combination.value(s),
    {
        let ghost level = linear_combination;
        let mut levels: Vec<LinearCombination<S>> = Vec::new();
        levels.push(linear_combination);
        let r = Objective { hierarchy_levels: levels };
        proof {
            assert(r.hierarchy_levels@[0] == level);
            assert forall|s: S| #[trigger] r.evaluable(s) <==> level.value(s) is Some by {
                if level.value(s) is Some {
                    assert(forall|i: int| 0 <= i < 1 ==> r.hierarchy_levels@[i] == level);
                }
            }
        }
        r
    }

    /// Creates an objective of a single level that holds the single indicator `indicator`
    /// with coefficient one: every solution can be evaluated, and its value is the indicator's.
    pub fn new_single_indicator(indicator: Box<dyn Indicator<S>>) -> (r: Objective<S>)
        ensures
            r.levels() == 1,
            forall|s: S| #[trigger] r.evaluable(s),
            forall|s: S| #[trigger] r.value_of(s) == seq![indicator.value(s)],
    {
        let ghost ind = indicator;
        let mut summands: Vec<(Coefficient, Box<dyn Indicator<S>>)> = Vec::new();
        let pair = (Coefficient::Integer(1), indicator);
        summands.push(pair);
        assert(summands@.len() == 1 && summands@[0] == (Coefficient::Integer(1), ind));
        let level = LinearCombination { summands };
        proof {
            assert forall|s: S| #[trigger] level.value(s) == Some(ind.value(s)) by {
                let t = level.summands@;
                assert(t.len() == 1 && t.last() == (Coefficient::Integer(1), ind));
                assert(t.drop_last() =~= Seq::<(Coefficient, Box<dyn Indicator<S>>)>::empty());
                assert(combination_value(t.drop_last(), s) == Some(BaseValue::Zero));
                let v = ind.value(s);
                match v {
                    BaseValue::Duration(crate::duration::Duration::Length(l)) => {
                        assert(scaled(Coefficient::Integer(1), v) == Some(v));
                    },
                    _ => {},
                }
            }
        }
        let ghost lv = level;
        let mut levels: Vec<LinearCombination<S>> = Vec::new();
        levels.push(level);
        assert(levels@.len() == 1 && levels@[0] == lv);
        let r = Objective { hierarchy_levels: levels };
        proof {
            assert forall|s: S| #[trigger] r.value_of(s) == seq![ind.value(s)] by {
                assert(r.hierarchy_levels@[0].value(s) == Some(ind.value(s)));
                assert(r.value_of(s) =~= seq![ind.value(s)]);
            }
            assert forall|s: S| #[trigger] r.evaluable(s) by {
                assert(r.hierarchy_levels@[0].value(s) == Some(ind.value(s)));
            }
        }
        r
    }

    /// Creates an objective with one level per indicator, each with coefficient one, the most
    /// important first: every solution can be evaluated, and level `i` holds the value of
    /// indicator `i`.
    pub fn new_single_indicator_per_level(indicators: Vec<Box<dyn Indicator<S>>>) -> (r: Objective<S>)
        ensures
            r.levels() == indicators@.len(),
            forall|s: S| #[trigger] r.evaluable(s),
            forall|s: S, i: int|
                0 <= i < indicators@.len() ==> #[trigger] r.value_of(s)[i] == indicators@[i].value(
                    s,
                ),
    {
        let ghost inds = indicators@;
        let mut rest = crate::neighborhood::reversed(indicators);
        let total = rest.len();
        let mut levels: Vec<LinearCombination<S>> = Vec::new();
        while rest.len() > 0
            invariant
                rest@.len() + levels@.len() == inds.len(),
                inds.len() == total,
                forall|j: int| 0 <= j < rest@.len() ==> #[trigger] rest@[j] == inds[inds.len() - 1 - j],
                forall|k: int, s: S|
                    0 <= k < levels@.len() ==> #[trigger] levels@[k].value(s) == Some(
                        inds[k].value(s),
                    ),
            decreases rest@.len(),
        {
            let indicator = rest.pop().unwrap();
            let ghost old_levels = levels@;
            let ghost ind = inds[old_levels.len() as int];
            assert(indicator == ind);
            let mut summands: Vec<(Coefficient, Box<dyn Indicator<S>>)> = Vec::new();
            let pair = (Coefficient::Integer(1), indicator);
            summands.push(pair);
            assert(summands@.len() == 1 && summands@[0] == (Coefficient::Integer(1), ind));
            let level = LinearCombination { summands };
            proof {
                assert forall|s: S| #[trigger] level.value(s) == Some(ind.value(s)) by {
                    let t = level.summands@;
                    assert(t.len() == 1 && t.last() == (Coefficient::Integer(1), ind));
                    assert(t.drop_last() =~= Seq::<(Coefficient, Box<dyn Indicator<S>>)>::empty());
                    assert(combination_value(t.drop_last(), s) == Some(BaseValue::Zero));
                    let v = ind.value(s);
                    match v {
                        BaseValue::Duration(crate::duration::Duration::Length(l)) => {
                            assert(scaled(Coefficient::Integer(1), v) == Some(v));
                        },
                        _ => {},
                    }
                }
            }
            levels.push(level);
            proof {
                assert forall|k: int, s: S| 0 <= k < levels@.len() implies #[trigger] levels@[k].value(
                    s,
                ) == Some(inds[k].value(s)) by {
                    if k < old_levels.len() {
                        assert(levels@[k] == old_levels[k]);
                    }
                }
            }
        }
        let r = Objective { hierarchy_levels: levels };
        proof {
            assert forall|s: S, i: int| 0 <= i < inds.len() implies #[trigger] r.value_of(s)[i]
                == inds[i].value(s) by {
                assert(r.hierarchy_levels@[i].value(s) == Some(inds[i].value(s)));
            }
            assert forall|s: S| #[trigger] r.evaluable(s) by {
                assert forall|i: int| 0 <= i < r.hierarchy_levels@.len() implies (
                #[trigger] r.hierarchy_levels@[i].value(s)) is Some by {
                    assert(r.hierarchy_levels@[i].value(s) == Some(inds[i].value(s)));
                }
            }
        }
        r
    }
}

/// Every value compares equal to itself.
pub proof fn lemma_lex_reflexive(v: Seq<BaseValue>)
    ensures
        lex_cmp(v, v) == Some(Ordering::Equal),
    decreases v.len(),
{
    if v.len() > 0 {
        assert(base_cmp(v[0], v[0]) == Some(Ordering::Equal));
        lemma_lex_reflexive(v.drop_first());
    }
}

/// Evaluation is deterministic: two evaluations of the same solution carry the same objective
/// value, which compares equal to itself.
pub proof fn lemma_evaluate_deterministic<S>(
    objective: &Objective<S>,
    first: EvaluatedSolution<S>,
    second: EvaluatedSolution<S>,
)
    requires
        objective.evaluates(first),
        objective.evaluates(second),
        first.sol() == second.sol(),
    ensures
        first.val() == second.val(),
        lex_cmp(first.val(), second.val()) == Some(Ordering::Equal),
{
    lemma_lex_reflexive(first.val());
}

} // verus!
