//! The scalar values that indicators and objective levels produce.
use crate::duration::{
    duration_addable, duration_cmp, duration_diff, duration_le, duration_sum, Duration,
};
use std::cmp::Ordering;
use vstd::prelude::*;

verus! {

/// Number of fixed-point units in one: a [`BaseValue::Float`] holds millionths.
pub const FLOAT_UNIT: i64 = 1000000;

/// Two real values closer than this many millionths (0.0001) count as equal.
pub const TOLERANCE: i64 = 100;

/// A single value of an indicator or an objective level: a count, a real cost or a duration.
/// * `Maximum` is larger (worse) than all other values and absorbs every sum.
/// * `Zero` is the neutral element of addition and compares as zero of any kind.
#[derive(Debug, Clone, Copy)]
pub enum BaseValue {
    /// An integer value.
    Integer(i64),
    /// A real value, held in millionths (fixed point with six decimals).
    Float(i64),
    /// A [`Duration`] value.
    Duration(Duration),
    /// The maximum value.
    Maximum,
    /// The neutral element of addition.
    Zero,
}

/// The order of two integers.
pub open spec fn int_cmp(a: int, b: int) -> Ordering {
    if a < b {
        Ordering::Less
    } else if a == b {
        Ordering::Equal
    } else {
        Ordering::Greater
    }
}

/// The order of two real values in millionths, equal within the tolerance.
pub open spec fn float_cmp(a: int, b: int) -> Ordering {
    if a - b > TOLERANCE {
        Ordering::Greater
    } else if b - a > TOLERANCE {
        Ordering::Less
    } else {
        Ordering::Equal
    }
}

/// The order of two values; `None` where their kinds cannot be compared (such as an integer
/// and a duration). `Zero` compares as the zero of the other value's kind.
pub open spec fn base_cmp(a: BaseValue, b: BaseValue) -> Option<Ordering> {
    match (a, b) {
        (BaseValue::Integer(x), BaseValue::Integer(y)) => Some(int_cmp(x as int, y as int)),
        (BaseValue::Float(x), BaseValue::Float(y)) => Some(float_cmp(x as int, y as int)),
        (BaseValue::Duration(x), BaseValue::Duration(y)) => Some(duration_cmp(x, y)),
        (BaseValue::Maximum, BaseValue::Maximum) => Some(Ordering::Equal),
        (BaseValue::Zero, BaseValue::Zero) => Some(Ordering::Equal),
        (BaseValue::Maximum, _) => Some(Ordering::Greater),
        (_, BaseValue::Maximum) => Some(Ordering::Less),
        (BaseValue::Zero, BaseValue::Integer(y)) => Some(int_cmp(0, y as int)),
        (BaseValue::Zero, BaseValue::Float(y)) => Some(float_cmp(0, y as int)),
        (BaseValue::Zero, BaseValue::Duration(y)) => Some(duration_cmp(Duration::of_seconds(0), y)),
        (BaseValue::Integer(x), BaseValue::Zero) => Some(int_cmp(x as int, 0)),
        (BaseValue::Float(x), BaseValue::Zero) => Some(float_cmp(x as int, 0)),
        (BaseValue::Duration(x), BaseValue::Zero) => Some(duration_cmp(x, Duration::of_seconds(0))),
        _ => None,
    }
}

/// Whether two values have kinds that combine: the same kind, or one of them `Zero` or
/// `Maximum`.
pub open spec fn compatible(a: BaseValue, b: BaseValue) -> bool {
    match (a, b) {
        (BaseValue::Integer(_), BaseValue::Integer(_)) => true,
        (BaseValue::Float(_), BaseValue::Float(_)) => true,
        (BaseValue::Duration(_), BaseValue::Duration(_)) => true,
        (BaseValue::Maximum, _) => true,
        (_, BaseValue::Maximum) => true,
        (BaseValue::Zero, _) => true,
        (_, BaseValue::Zero) => true,
        _ => false,
    }
}

/// The sum `a + b`; `None` where the kinds do not match or the sum does not fit.
pub open spec fn base_sum(a: BaseValue, b: BaseValue) -> Option<BaseValue> {
    match (a, b) {
        (BaseValue::Integer(x), BaseValue::Integer(y)) => if i64::MIN <= x + y <= i64::MAX {
            Some(BaseValue::Integer((x + y) as i64))
        } else {
            None
        },
        (BaseValue::Float(x), BaseValue::Float(y)) => if i64::MIN <= x + y <= i64::MAX {
            Some(BaseValue::Float((x + y) as i64))
        } else {
            None
        },
        (BaseValue::Duration(x), BaseValue::Duration(y)) => if duration_addable(x, y) {
            Some(BaseValue::Duration(duration_sum(x, y)))
        } else {
            None
        },
        (BaseValue::Maximum, _) => Some(BaseValue::Maximum),
        (_, BaseValue::Maximum) => Some(BaseValue::Maximum),
        (BaseValue::Zero, v) => Some(v),
        (v, BaseValue::Zero) => Some(v),
        _ => None,
    }
}

/// The difference `a - b`; `None` where the kinds do not match, the difference does not fit,
/// or a longer duration is taken from a shorter one.
pub open spec fn base_diff(a: BaseValue, b: BaseValue) -> Option<BaseValue> {
    match (a, b) {
        (BaseValue::Integer(x), BaseValue::Integer(y)) => if i64::MIN <= x - y <= i64::MAX {
            Some(BaseValue::Integer((x - y) as i64))
        } else {
            None
        },
        (BaseValue::Float(x), BaseValue::Float(y)) => if i64::MIN <= x - y <= i64::MAX {
            Some(BaseValue::Float((x - y) as i64))
        } else {
            None
        },
        (BaseValue::Duration(x), BaseValue::Duration(y)) => if duration_le(y, x) {
            Some(BaseValue::Duration(duration_diff(x, y)))
        } else {
            None
        },
        (BaseValue::Maximum, _) => Some(BaseValue::Maximum),
        (v, BaseValue::Zero) => Some(v),
        (BaseValue::Zero, BaseValue::Integer(y)) => if y > i64::MIN {
            Some(BaseValue::Integer((-y) as i64))
        } else {
            None
        },
        (BaseValue::Zero, BaseValue::Float(y)) => if y > i64::MIN {
            Some(BaseValue::Float((-y) as i64))
        } else {
            None
        },
        _ => None,
    }
}

impl BaseValue {
    /// The integer of [`BaseValue::Integer`].
    pub fn unwrap_integer(self) -> (r: i64)
        requires
            self is Integer,
        ensures
            self == BaseValue::Integer(r),
    {
        match self {
            BaseValue::Integer(i) => i,
            _ => 0,
        }
    }

    /// The real value (in millionths) of [`BaseValue::Float`].
    pub fn unwrap_float(self) -> (r: i64)
        requires
            self is Float,
        ensures
            self == BaseValue::Float(r),
    {
        match self {
            BaseValue::Float(f) => f,
            _ => 0,
        }
    }

    /// The duration of [`BaseValue::Duration`].
    pub fn unwrap_duration(self) -> (r: Duration)
        requires
            self is Duration,
        ensures
            self == BaseValue::Duration(r),
    {
        match self {
            BaseValue::Duration(d) => d,
            _ => Duration::Infinity,
        }
    }

    /// The order of two values, or `None` where their kinds cannot be compared.
    pub fn try_cmp(&self, other: &BaseValue) -> (r: Option<Ordering>)
        ensures
            r == base_cmp(*self, *other),
    {
        match (self, other) {
            (BaseValue::Integer(x), BaseValue::Integer(y)) => Some(int_order(*x, *y)),
            (BaseValue::Float(x), BaseValue::Float(y)) => Some(float_order(*x, *y)),
            (BaseValue::Duration(x), BaseValue::Duration(y)) => Some(x.compare(y)),
            (BaseValue::Maximum, BaseValue::Maximum) => Some(Ordering::Equal),
            (BaseValue::Zero, BaseValue::Zero) => Some(Ordering::Equal),
            (BaseValue::Maximum, _) => Some(Ordering::Greater),
            (_, BaseValue::Maximum) => Some(Ordering::Less),
            (BaseValue::Zero, BaseValue::Integer(y)) => Some(int_order(0, *y)),
            (BaseValue::Zero, BaseValue::Float(y)) => Some(float_order(0, *y)),
            (BaseValue::Zero, BaseValue::Duration(y)) => Some(Duration::zero().compare(y)),
            (BaseValue::Integer(x), BaseValue::Zero) => Some(int_order(*x, 0)),
            (BaseValue::Float(x), BaseValue::Zero) => Some(float_order(*x, 0)),
            (BaseValue::Duration(x), BaseValue::Zero) => Some(x.compare(&Duration::zero())),
            _ => None,
        }
    }

    /// The order of two values of comparable kinds.
    pub fn cmp(&self, other: &BaseValue) -> (r: Ordering)
        requires
            base_cmp(*self, *other) is Some,
        ensures
            Some(r) == base_cmp(*self, *other),
    {
        match self.try_cmp(other) {
            Some(o) => o,
            None => Ordering::Equal,
        }
    }

    /// The sum of two values of matching kinds; `Maximum` absorbs, `Zero` is neutral.
    pub fn add(self, other: BaseValue) -> (r: BaseValue)
        requires
            base_sum(self, other) is Some,
        ensures
            Some(r) == base_sum(self, other),
    {
        match (self, other) {
            (BaseValue::Integer(a), BaseValue::Integer(b)) => BaseValue::Integer(a + b),
            (BaseValue::Float(a), BaseValue::Float(b)) => BaseValue::Float(a + b),
            (BaseValue::Duration(a), BaseValue::Duration(b)) => BaseValue::Duration(a.add(b)),
            (BaseValue::Maximum, _) => BaseValue::Maximum,
            (_, BaseValue::Maximum) => BaseValue::Maximum,
            (BaseValue::Zero, value) => value,
            (value, BaseValue::Zero) => value,
            _ => BaseValue::Zero,
        }
    }

    /// The sum of two values, or `None` where the kinds do not match or the sum does not fit.
    pub fn checked_add(self, other: BaseValue) -> (r: Option<BaseValue>)
        ensures
            r == base_sum(self, other),
    {
        match (self, other) {
            (BaseValue::Integer(a), BaseValue::Integer(b)) => match a.checked_add(b) {
                Some(s) => Some(BaseValue::Integer(s)),
                None => None,
            },
            (BaseValue::Float(a), BaseValue::Float(b)) => match a.checked_add(b) {
                Some(s) => Some(BaseValue::Float(s)),
                None => None,
            },
            (BaseValue::Duration(a), BaseValue::Duration(b)) => {
                match (a, b) {
                    (Duration::Length(x), Duration::Length(y)) => {
                        if x.seconds <= u64::MAX - y.seconds {
                            Some(BaseValue::Duration(a.add(b)))
                        } else {
                            None
                        }
                    },
                    _ => Some(BaseValue::Duration(a.add(b))),
                }
            },
            (BaseValue::Maximum, _) => Some(BaseValue::Maximum),
            (_, BaseValue::Maximum) => Some(BaseValue::Maximum),
            (BaseValue::Zero, value) => Some(value),
            (value, BaseValue::Zero) => Some(value),
            _ => None,
        }
    }

    /// The difference of two values of matching kinds.
    pub fn sub(self, other: BaseValue) -> (r: BaseValue)
        requires
            base_diff(self, other) is Some,
        ensures
            Some(r) == base_diff(self, other),
    {
        match (self, other) {
            (BaseValue::Integer(a), BaseValue::Integer(b)) => BaseValue::Integer(a - b),
            (BaseValue::Float(a), BaseValue::Float(b)) => BaseValue::Float(a - b),
            (BaseValue::Duration(a), BaseValue::Duration(b)) => BaseValue::Duration(a.sub(b)),
            (BaseValue::Maximum, _) => BaseValue::Maximum,
            (value, BaseValue::Zero) => value,
            (BaseValue::Zero, BaseValue::Integer(a)) => BaseValue::Integer(-a),
            (BaseValue::Zero, BaseValue::Float(a)) => BaseValue::Float(-a),
            _ => BaseValue::Zero,
        }
    }

    /// The sum of all `values`, starting from `Zero`.
    pub fn sum(values: &Vec<BaseValue>) -> (r: BaseValue)
        requires
            sum_defined(values@),
        ensures
            Some(r) == base_total(values@),
    {
        let mut total = BaseValue::Zero;
        let mut i: usize = 0;
        while i < values.len()
            invariant
                i <= values@.len(),
                sum_defined(values@),
                Some(total) == base_total(values@.take(i as int)),
            decreases values@.len() - i,
        {
            proof {
                assert(values@.take(i + 1).drop_last() =~= values@.take(i as int));
                lemma_total_prefix(values@, i + 1);
            }
            total = total.add(values[i]);
            i += 1;
        }
        assert(values@.take(values@.len() as int) =~= values@);
        total
    }
}

/// The sum of a sequence of values from the left, starting from `Zero`; `None` where a step
/// is undefined.
pub open spec fn base_total(vs: Seq<BaseValue>) -> Option<BaseValue>
    decreases vs.len(),
{
    if vs.len() == 0 {
        Some(BaseValue::Zero)
    } else {
        match base_total(vs.drop_last()) {
            Some(t) => base_sum(t, vs.last()),
            None => None,
        }
    }
}

/// Whether the sum of `vs` is defined.
pub open spec fn sum_defined(vs: Seq<BaseValue>) -> bool {
    base_total(vs) is Some
}

proof fn lemma_total_prefix(vs: Seq<BaseValue>, i: int)
    requires
        0 <= i <= vs.len(),
        base_total(vs) is Some,
    ensures
        base_total(vs.take(i)) is Some,
    decreases vs.len() - i,
{
    if i < vs.len() {
        lemma_total_prefix(vs, i + 1);
        assert(vs.take(i + 1).drop_last() =~= vs.take(i));
    } else {
        assert(vs.take(i) =~= vs);
    }
}

fn int_order(a: i64, b: i64) -> (r: Ordering)
    ensures
        r == int_cmp(a as int, b as int),
{
    if a < b {
        Ordering::Less
    } else if a == b {
        Ordering::Equal
    } else {
        Ordering::Greater
    }
}

fn float_order(a: i64, b: i64) -> (r: Ordering)
    ensures
        r == float_cmp(a as int, b as int),
{
    let d = a as i128 - b as i128;
    if d > TOLERANCE as i128 {
        Ordering::Greater
    } else if -d > TOLERANCE as i128 {
        Ordering::Less
    } else {
        Ordering::Equal
    }
}

impl PartialEq for BaseValue {
    /// Values are equal where they compare as equal (real values within the tolerance);
    /// values of kinds that cannot be compared are not equal.
    fn eq(&self, other: &BaseValue) -> (r: bool) {
        match self.try_cmp(other) {
            Some(Ordering::Equal) => true,
            _ => false,
        }
    }
}

impl vstd::std_specs::cmp::PartialEqSpecImpl for BaseValue {
    open spec fn obeys_eq_spec() -> bool {
        true
    }

    open spec fn eq_spec(&self, other: &BaseValue) -> bool {
        base_cmp(*self, *other) == Some(Ordering::Equal)
    }
}

/// Two values of compatible kinds are ordered one way or the other: the order is defined, and
/// swapping the values reverses it.
pub proof fn lemma_base_order_total(a: BaseValue, b: BaseValue)
    requires
        compatible(a, b),
    ensures
        base_cmp(a, b) is Some,
        base_cmp(b, a) is Some,
        base_cmp(b, a)->0 == reverse(base_cmp(a, b)->0),
{
}

/// The reverse of an order.
pub open spec fn reverse(o: Ordering) -> Ordering {
    match o {
        Ordering::Less => Ordering::Greater,
        Ordering::Equal => Ordering::Equal,
        Ordering::Greater => Ordering::Less,
    }
}

/// `Maximum` is above every other value, `Zero` is neutral for addition, and a value minus
/// itself is zero (for values other than durations and `Maximum`).
pub proof fn lemma_base_identities(x: BaseValue)
    ensures
        !(x is Maximum) ==> base_cmp(BaseValue::Maximum, x) == Some(Ordering::Greater),
        base_sum(BaseValue::Zero, x) == Some(x),
        !(x is Maximum) && !(x is Duration) ==> base_diff(x, x) is Some && base_cmp(
            base_diff(x, x)->0,
            BaseValue::Zero,
        ) == Some(Ordering::Equal),
{
}

} // verus!
