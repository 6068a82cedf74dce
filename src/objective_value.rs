//! The hierarchical objective value of a solution: one [`BaseValue`] per level, compared
//! lexicographically.
use crate::base_value::{
    base_cmp, base_diff, base_sum, compatible, lemma_base_order_total, reverse, BaseValue,
};
use crate::coefficient::{scaled, Coefficient};
use std::cmp::Ordering;
use vstd::prelude::*;

verus! {

/// The hierarchical objective value of a solution: a vector of [`BaseValue`]s, the most
/// important level first.
#[derive(Debug)]
pub struct ObjectiveValue {
    objective_vector: Vec<BaseValue>,
}

impl View for ObjectiveValue {
    type V = Seq<BaseValue>;

    closed spec fn view(&self) -> Seq<BaseValue> {
        self.objective_vector@
    }
}

/// The lexicographic order of two value vectors over their common length: the first level that
/// differs decides. `None` where a level is reached whose values cannot be compared.
pub open spec fn lex_cmp(a: Seq<BaseValue>, b: Seq<BaseValue>) -> Option<Ordering>
    decreases a.len(),
{
    if a.len() == 0 || b.len() == 0 {
        Some(Ordering::Equal)
    } else {
        match base_cmp(a[0], b[0]) {
            None => None,
            Some(Ordering::Equal) => lex_cmp(a.drop_first(), b.drop_first()),
            Some(o) => Some(o),
        }
    }
}

/// Whether `a` is strictly smaller (better) than `b`.
pub open spec fn lex_lt(a: Seq<BaseValue>, b: Seq<BaseValue>) -> bool {
    lex_cmp(a, b) == Some(Ordering::Less)
}

/// Whether `a` is at most `b`.
pub open spec fn lex_le(a: Seq<BaseValue>, b: Seq<BaseValue>) -> bool {
    lex_cmp(a, b) == Some(Ordering::Less) || lex_cmp(a, b) == Some(Ordering::Equal)
}

/// Whether two vectors have the same length and compatible kinds on every level.
pub open spec fn same_kinds(a: Seq<BaseValue>, b: Seq<BaseValue>) -> bool {
    &&& a.len() == b.len()
    &&& forall|i: int| 0 <= i < a.len() ==> compatible(#[trigger] a[i], b[i])
}

/// The length of the common part of two vectors.
pub open spec fn common_len(a: Seq<BaseValue>, b: Seq<BaseValue>) -> int {
    if a.len() <= b.len() {
        a.len() as int
    } else {
        b.len() as int
    }
}

/// Whether `a + b` is defined on every common level.
pub open spec fn addable(a: Seq<BaseValue>, b: Seq<BaseValue>) -> bool {
    forall|i: int| 0 <= i < common_len(a, b) ==> (#[trigger] base_sum(a[i], b[i])) is Some
}

/// Whether `a - b` is defined on every common level.
pub open spec fn subtractable(a: Seq<BaseValue>, b: Seq<BaseValue>) -> bool {
    forall|i: int| 0 <= i < common_len(a, b) ==> (#[trigger] base_diff(a[i], b[i])) is Some
}

/// The levelwise sum of two vectors over their common length.
pub open spec fn lex_sum(a: Seq<BaseValue>, b: Seq<BaseValue>) -> Seq<BaseValue> {
    Seq::new(common_len(a, b) as nat, |i: int| base_sum(a[i], b[i])->0)
}

/// The levelwise difference of two vectors over their common length.
pub open spec fn lex_diff(a: Seq<BaseValue>, b: Seq<BaseValue>) -> Seq<BaseValue> {
    Seq::new(common_len(a, b) as nat, |i: int| base_diff(a[i], b[i])->0)
}

/// `n` copies of `v`.
pub open spec fn repeated(v: BaseValue, n: nat) -> Seq<BaseValue> {
    Seq::new(n, |i: int| v)
}

impl ObjectiveValue {
    /// Creates an objective value from its levels, the most important first.
    pub fn new(objective_vector: Vec<BaseValue>) -> (r: ObjectiveValue)
        ensures
            r@ == objective_vector@,
    {
        ObjectiveValue { objective_vector }
    }

    /// The levels of the objective value.
    pub fn iter(&self) -> (r: std::slice::Iter<'_, BaseValue>)
        ensures
            vstd::std_specs::slice::into_iter_elts(r) == self@,
    {
        broadcast use vstd::std_specs::slice::axiom_spec_slice_iter;

        let r = self.objective_vector.iter();
        assert(vstd::std_specs::slice::into_iter_elts(r) =~= self@);
        r
    }

    /// The levels of the objective value as a vector.
    pub fn as_vec(&self) -> (r: &Vec<BaseValue>)
        ensures
            r@ == self@,
    {
        &self.objective_vector
    }

    /// The lexicographic order of two objective values, or `None` where a deciding level holds
    /// values that cannot be compared.
    pub fn try_compare(&self, other: &ObjectiveValue) -> (r: Option<Ordering>)
        ensures
            r == lex_cmp(self@, other@),
    {
        let a = &self.objective_vector;
        let b = &other.objective_vector;
        let mut i: usize = 0;
        assert(self@ == a@ && other@ == b@);
        assert(a@.skip(0) =~= a@);
        assert(b@.skip(0) =~= b@);
        while i < a.len() && i < b.len()
            invariant
                i <= a@.len(),
                i <= b@.len(),
                lex_cmp(a@, b@) == lex_cmp(a@.skip(i as int), b@.skip(i as int)),
                self@ == a@ && other@ == b@,
            decreases a@.len() - i,
        {
            proof {
                assert(a@.skip(i as int).drop_first() =~= a@.skip(i + 1));
                assert(b@.skip(i as int).drop_first() =~= b@.skip(i + 1));
                assert(a@.skip(i as int)[0] == a@[i as int]);
                assert(b@.skip(i as int)[0] == b@[i as int]);
            }
            let c = a[i].try_cmp(&b[i]);
            proof {
                let sa = a@.skip(i as int);
                let sb = b@.skip(i as int);
                assert(sa.len() > 0 && sb.len() > 0);
                assert(lex_cmp(sa, sb) == match base_cmp(sa[0], sb[0]) {
                    None => None,
                    Some(Ordering::Equal) => lex_cmp(sa.drop_first(), sb.drop_first()),
                    Some(o) => Some(o),
                });
            }
            match c {
                None => {
                    return None;
                },
                Some(Ordering::Equal) => {},
                Some(o) => {
                    return Some(o);
                },
            }
            i += 1;
        }
        assert(a@.skip(i as int).len() == 0 || b@.skip(i as int).len() == 0);
        Some(Ordering::Equal)
    }

    /// The lexicographic order of two comparable objective values.
    pub fn compare(&self, other: &ObjectiveValue) -> (r: Ordering)
        requires
            lex_cmp(self@, other@) is Some,
        ensures
            Some(r) == lex_cmp(self@, other@),
    {
        match self.try_compare(other) {
            Some(o) => o,
            None => Ordering::Equal,
        }
    }

    /// The lexicographic order of two comparable objective values (the same as
    /// [`ObjectiveValue::compare`]).
    pub fn cmp(&self, other: &ObjectiveValue) -> (r: Ordering)
        requires
            lex_cmp(self@, other@) is Some,
        ensures
            Some(r) == lex_cmp(self@, other@),
    {
        self.compare(other)
    }

    /// Whether `self` is strictly smaller (better) than `other`; false where they cannot be
    /// compared.
    pub fn lt(&self, other: &ObjectiveValue) -> (r: bool)
        ensures
            r == lex_lt(self@, other@),
    {
        match self.try_compare(other) {
            Some(Ordering::Less) => true,
            _ => false,
        }
    }

    /// The levelwise sum over the common length.
    pub fn add(&self, other: &ObjectiveValue) -> (r: ObjectiveValue)
        requires
            addable(self@, other@),
        ensures
            r@ == lex_sum(self@, other@),
    {
        let mut v: Vec<BaseValue> = Vec::new();
        let mut i: usize = 0;
        let n = if self.objective_vector.len() <= other.objective_vector.len() {
            self.objective_vector.len()
        } else {
            other.objective_vector.len()
        };
        while i < n
            invariant
                n == common_len(self@, other@),
                i <= n,
                addable(self@, other@),
                v@ =~= lex_sum(self@, other@).take(i as int),
            decreases n - i,
        {
            assert(base_sum(self@[i as int], other@[i as int]) is Some);
            v.push(self.objective_vector[i].add(other.objective_vector[i]));
            i += 1;
            assert(v@ =~= lex_sum(self@, other@).take(i as int));
        }
        assert(lex_sum(self@, other@).take(n as int) =~= lex_sum(self@, other@));
        ObjectiveValue { objective_vector: v }
    }

    /// The levelwise sum over the common length, or `None` where a level cannot be added.
    pub fn try_add(&self, other: &ObjectiveValue) -> (r: Option<ObjectiveValue>)
        ensures
            r is Some <==> addable(self@, other@),
            r is Some ==> r->0@ == lex_sum(self@, other@),
    {
        let n = if self.objective_vector.len() <= other.objective_vector.len() {
            self.objective_vector.len()
        } else {
            other.objective_vector.len()
        };
        let mut i: usize = 0;
        while i < n
            invariant
                n == common_len(self@, other@),
                i <= n,
                forall|j: int| 0 <= j < i ==> (#[trigger] base_sum(self@[j], other@[j])) is Some,
            decreases n - i,
        {
            match self.objective_vector[i].checked_add(other.objective_vector[i]) {
                Some(_) => {},
                None => {
                    return None;
                },
            }
            i += 1;
        }
        Some(self.add(other))
    }

    /// The levelwise difference over the common length.
    pub fn sub(&self, other: &ObjectiveValue) -> (r: ObjectiveValue)
        requires
            subtractable(self@, other@),
        ensures
            r@ == lex_diff(self@, other@),
    {
        let mut v: Vec<BaseValue> = Vec::new();
        let mut i: usize = 0;
        let n = if self.objective_vector.len() <= other.objective_vector.len() {
            self.objective_vector.len()
        } else {
            other.objective_vector.len()
        };
        while i < n
            invariant
                n == common_len(self@, other@),
                i <= n,
                subtractable(self@, other@),
                v@ =~= lex_diff(self@, other@).take(i as int),
            decreases n - i,
        {
            assert(base_diff(self@[i as int], other@[i as int]) is Some);
            v.push(self.objective_vector[i].sub(other.objective_vector[i]));
            i += 1;
            assert(v@ =~= lex_diff(self@, other@).take(i as int));
        }
        assert(lex_diff(self@, other@).take(n as int) =~= lex_diff(self@, other@));
        ObjectiveValue { objective_vector: v }
    }

    /// Every level multiplied by `coefficient`.
    pub fn mul(&self, coefficient: Coefficient) -> (r: ObjectiveValue)
        requires
            forall|i: int| 0 <= i < self@.len() ==> (#[trigger] scaled(coefficient, self@[i])) is Some,
        ensures
            r@.len() == self@.len(),
            forall|i: int| 0 <= i < self@.len() ==> Some(#[trigger] r@[i]) == scaled(coefficient, self@[i]),
    {
        let mut v: Vec<BaseValue> = Vec::new();
        let mut i: usize = 0;
        while i < self.objective_vector.len()
            invariant
                i <= self@.len(),
                forall|i: int| 0 <= i < self@.len() ==> (#[trigger] scaled(coefficient, self@[i])) is Some,
                v@.len() == i,
                forall|j: int| 0 <= j < i ==> Some(#[trigger] v@[j]) == scaled(coefficient, self@[j]),
            decreases self@.len() - i,
        {
            v.push(coefficient.mul(self.objective_vector[i]));
            i += 1;
        }
        ObjectiveValue { objective_vector: v }
    }

    /// An objective value of `n` copies of `value`.
    pub fn repeat(value: BaseValue, n: usize) -> (r: ObjectiveValue)
        ensures
            r@ == repeated(value, n as nat),
    {
        let mut v: Vec<BaseValue> = Vec::new();
        let mut i: usize = 0;
        while i < n
            invariant
                i <= n,
                v@ =~= repeated(value, i as nat),
            decreases n - i,
        {
            v.push(value);
            i += 1;
            assert(v@ =~= repeated(value, i as nat));
        }
        ObjectiveValue { objective_vector: v }
    }
}

impl Clone for ObjectiveValue {
    fn clone(&self) -> (r: ObjectiveValue)
        ensures
            r@ == self@,
    {
        let mut v: Vec<BaseValue> = Vec::new();
        let mut i: usize = 0;
        while i < self.objective_vector.len()
            invariant
                i <= self@.len(),
                v@ =~= self@.take(i as int),
            decreases self@.len() - i,
        {
            v.push(self.objective_vector[i]);
            i += 1;
            assert(v@ =~= self@.take(i as int));
        }
        assert(self@.take(self@.len() as int) =~= self@);
        ObjectiveValue { objective_vector: v }
    }
}

impl PartialEq for ObjectiveValue {
    /// Objective values are equal where they compare as equal.
    fn eq(&self, other: &ObjectiveValue) -> (r: bool) {
        match self.try_compare(other) {
            Some(Ordering::Equal) => true,
            _ => false,
        }
    }
}

impl vstd::std_specs::cmp::PartialEqSpecImpl for ObjectiveValue {
    open spec fn obeys_eq_spec() -> bool {
        true
    }

    open spec fn eq_spec(&self, other: &ObjectiveValue) -> bool {
        lex_cmp(self@, other@) == Some(Ordering::Equal)
    }
}

/// Objective values with the same kinds on every level are totally ordered: exactly one of
/// smaller, equal and greater holds, and swapping them reverses the order.
pub proof fn lemma_objective_order_total(a: Seq<BaseValue>, b: Seq<BaseValue>)
    requires
        same_kinds(a, b),
    ensures
        lex_cmp(a, b) is Some,
        lex_cmp(b, a) is Some,
        lex_cmp(b, a)->0 == reverse(lex_cmp(a, b)->0),
    decreases a.len(),
{
    if a.len() > 0 {
        lemma_base_order_total(a[0], b[0]);
        assert(same_kinds(a.drop_first(), b.drop_first())) by {
            assert forall|i: int| 0 <= i < a.len() - 1 implies compatible(
                #[trigger] a.drop_first()[i],
                b.drop_first()[i],
            ) by {
                assert(compatible(a[i + 1], b[i + 1]));
            }
        }
        lemma_objective_order_total(a.drop_first(), b.drop_first());
    }
}

/// The all-`Maximum` objective value is greater than every objective value of the same length
/// that has a level other than `Maximum`.
pub proof fn lemma_maximum_above(v: Seq<BaseValue>)
    requires
        exists|i: int| 0 <= i < v.len() && !(#[trigger] v[i] is Maximum),
    ensures
        lex_cmp(repeated(BaseValue::Maximum, v.len()), v) == Some(Ordering::Greater),
    decreases v.len(),
{
    let m = repeated(BaseValue::Maximum, v.len());
    let i = choose|i: int| 0 <= i < v.len() && !(#[trigger] v[i] is Maximum);
    if !(v[0] is Maximum) {
        assert(base_cmp(m[0], v[0]) == Some(Ordering::Greater));
    } else {
        assert(i > 0);
        assert(!(v.drop_first()[i - 1] is Maximum));
        lemma_maximum_above(v.drop_first());
        assert(m.drop_first() =~= repeated(BaseValue::Maximum, v.drop_first().len()));
    }
}

/// `Zero + x == x` levelwise, and `x - x` compares equal to the all-`Zero` value where `x` has
/// no duration or `Maximum` level.
pub proof fn lemma_zero_identities(x: Seq<BaseValue>)
    ensures
        addable(repeated(BaseValue::Zero, x.len()), x),
        lex_sum(repeated(BaseValue::Zero, x.len()), x) == x,
        (forall|i: int| 0 <= i < x.len() ==> !(#[trigger] x[i] is Maximum) && !(x[i] is Duration))
            ==> subtractable(x, x) && lex_cmp(lex_diff(x, x), repeated(BaseValue::Zero, x.len()))
            == Some(Ordering::Equal),
{
    let z = repeated(BaseValue::Zero, x.len());
    assert(lex_sum(z, x) =~= x);
    if forall|i: int| 0 <= i < x.len() ==> !(#[trigger] x[i] is Maximum) && !(x[i] is Duration) {
        lemma_diff_self_zero(x);
    }
}

proof fn lemma_diff_self_zero(x: Seq<BaseValue>)
    requires
        forall|i: int| 0 <= i < x.len() ==> !(#[trigger] x[i] is Maximum) && !(x[i] is Duration),
    ensures
        subtractable(x, x),
        lex_cmp(lex_diff(x, x), repeated(BaseValue::Zero, x.len())) == Some(Ordering::Equal),
    decreases x.len(),
{
    let d = lex_diff(x, x);
    let z = repeated(BaseValue::Zero, x.len());
    assert forall|i: int| 0 <= i < common_len(x, x) implies (#[trigger] base_diff(x[i], x[i])) is Some by {
        assert(!(x[i] is Maximum) && !(x[i] is Duration));
    }
    if x.len() > 0 {
        let y = x.drop_first();
        assert forall|i: int| 0 <= i < y.len() implies !(#[trigger] y[i] is Maximum) && !(y[i] is Duration) by {
            assert(!(x[i + 1] is Maximum) && !(x[i + 1] is Duration));
        }
        lemma_diff_self_zero(y);
        assert(d.drop_first() =~= lex_diff(y, y));
        assert(z.drop_first() =~= repeated(BaseValue::Zero, y.len()));
        assert(!(x[0] is Maximum) && !(x[0] is Duration));
        assert(base_cmp(d[0], z[0]) == Some(Ordering::Equal));
    }
}

} // verus!
