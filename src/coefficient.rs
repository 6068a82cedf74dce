//! The coefficients by which indicator values are weighted in a linear combination.
use crate::base_value::{BaseValue, FLOAT_UNIT};
use crate::duration::{Duration, DurationLength};
use vstd::prelude::*;

verus! {

/// A coefficient of an indicator: an integer, or a real number held in millionths (fixed point
/// with six decimals).
#[derive(Debug, Clone, Copy, PartialEq, Eq, Structural)]
pub enum Coefficient {
    /// An integer coefficient.
    Integer(i32),
    /// A real coefficient, in millionths.
    Float(i64),
}

/// `x / d` rounded toward zero, for `d > 0`.
pub open spec fn trunc_div(x: int, d: int) -> int {
    if x >= 0 {
        x / d
    } else {
        -((-x) / d)
    }
}

/// Whether `x` fits in an `i64`.
pub open spec fn fits_i64(x: int) -> bool {
    i64::MIN <= x <= i64::MAX
}

/// The product of a coefficient and a value; `None` where it does not fit its kind. A real
/// coefficient rounds integer and duration results toward zero, and a duration never becomes
/// negative. `Maximum`, `Zero` and an infinite duration stay as they are.
pub open spec fn scaled(c: Coefficient, v: BaseValue) -> Option<BaseValue> {
    match v {
        BaseValue::Maximum => Some(BaseValue::Maximum),
        BaseValue::Zero => Some(BaseValue::Zero),
        BaseValue::Duration(Duration::Infinity) => Some(BaseValue::Duration(Duration::Infinity)),
        BaseValue::Integer(b) => {
            let p = match c {
                Coefficient::Integer(k) => k * b,
                Coefficient::Float(k) => trunc_div(k * b, FLOAT_UNIT as int),
            };
            if fits_i64(p) {
                Some(BaseValue::Integer(p as i64))
            } else {
                None
            }
        },
        BaseValue::Float(b) => {
            let p = match c {
                Coefficient::Integer(k) => k * b,
                Coefficient::Float(k) => trunc_div(k * b, FLOAT_UNIT as int),
            };
            if fits_i64(p) {
                Some(BaseValue::Float(p as i64))
            } else {
                None
            }
        },
        BaseValue::Duration(Duration::Length(l)) => {
            let p = match c {
                Coefficient::Integer(k) => if l.seconds == 0 {
                    0
                } else {
                    k * l.seconds
                },
                Coefficient::Float(k) => {
                    let q = trunc_div(k * l.seconds, FLOAT_UNIT as int);
                    if q < 0 {
                        0
                    } else {
                        q
                    }
                },
            };
            if 0 <= p <= u64::MAX {
                Some(BaseValue::Duration(Duration::of_seconds(p)))
            } else {
                None
            }
        },
    }
}

/// A real coefficient between zero and one scales every value into one of the same kind.
pub proof fn lemma_shrinking_scale_defined(k: i64, v: BaseValue)
    requires
        0 <= k <= FLOAT_UNIT,
    ensures
        scaled(Coefficient::Float(k), v) is Some,
{
    match v {
        BaseValue::Integer(b) => lemma_shrink(k as int, b as int),
        BaseValue::Float(b) => lemma_shrink(k as int, b as int),
        BaseValue::Duration(Duration::Length(l)) => lemma_shrink(k as int, l.seconds as int),
        _ => {},
    }
}

proof fn lemma_shrink(k: int, b: int)
    requires
        0 <= k <= 1000000,
    ensures
        b >= 0 ==> 0 <= trunc_div(k * b, 1000000) <= b,
        b < 0 ==> b <= trunc_div(k * b, 1000000) <= 0,
{
    if b >= 0 {
        assert(0 <= k * b <= 1000000 * b) by (nonlinear_arith)
            requires
                0 <= k <= 1000000,
                b >= 0,
        ;
        assert((k * b) / 1000000 <= b) by (nonlinear_arith)
            requires
                0 <= k * b <= 1000000 * b,
        ;
    } else {
        assert(0 <= -(k * b) <= 1000000 * (-b)) by (nonlinear_arith)
            requires
                0 <= k <= 1000000,
                b < 0,
        ;
        assert((-(k * b)) / 1000000 <= -b) by (nonlinear_arith)
            requires
                0 <= -(k * b) <= 1000000 * (-b),
        ;
    }
}

impl Coefficient {
    /// Whether the coefficient is one.
    pub fn is_one(&self) -> (r: bool)
        ensures
            r == (*self == Coefficient::Integer(1) || *self == Coefficient::Float(FLOAT_UNIT)),
    {
        match self {
            Coefficient::Integer(i) => *i == 1,
            Coefficient::Float(f) => *f == FLOAT_UNIT,
        }
    }

    /// The product of the coefficient and `other`.
    pub fn mul(self, other: BaseValue) -> (r: BaseValue)
        requires
            scaled(self, other) is Some,
        ensures
            Some(r) == scaled(self, other),
    {
        match other {
            BaseValue::Maximum => BaseValue::Maximum,
            BaseValue::Zero => BaseValue::Zero,
            BaseValue::Integer(b) => BaseValue::Integer(scale_i64(self, b)),
            BaseValue::Float(b) => BaseValue::Float(scale_i64(self, b)),
            BaseValue::Duration(Duration::Infinity) => BaseValue::Duration(Duration::Infinity),
            BaseValue::Duration(Duration::Length(l)) => {
                let p: u64 = match self {
                    Coefficient::Integer(k) => {
                        if l.seconds == 0 {
                            0
                        } else {
                            proof {
                                assert(k >= 0) by (nonlinear_arith)
                                    requires
                                        (k as int) * l.seconds >= 0,
                                        l.seconds > 0,
                                ;
                            }
                            (k as u64) * l.seconds
                        }
                    },
                    Coefficient::Float(k) => {
                        if k < 0 {
                            proof {
                                assert((k as int) * l.seconds <= 0) by (nonlinear_arith)
                                    requires
                                        k < 0,
                                        l.seconds >= 0,
                                ;
                            }
                            0
                        } else {
                            proof {
                                assert((k as int) * l.seconds <= 0xffff_ffff_ffff_ffff_ffff_ffff_ffff_ffff)
                                    by (nonlinear_arith)
                                    requires
                                        0 <= k <= i64::MAX,
                                        0 <= l.seconds <= u64::MAX,
                                ;
                                assert((k as int) * l.seconds >= 0) by (nonlinear_arith)
                                    requires
                                        0 <= k,
                                        0 <= l.seconds,
                                ;
                            }
                            let m: u128 = (k as u128) * (l.seconds as u128);
                            assert(m == (k as int) * l.seconds);
                            let q: u128 = m / (FLOAT_UNIT as u128);
                            assert(q == trunc_div((k as int) * l.seconds, FLOAT_UNIT as int));
                            q as u64
                        }
                    },
                };
                BaseValue::Duration(Duration::Length(DurationLength { seconds: p }))
            },
        }
    }
}

/// The integer or real product of a coefficient and `b`, where it fits.
fn scale_i64(c: Coefficient, b: i64) -> (r: i64)
    requires
        fits_i64(
            match c {
                Coefficient::Integer(k) => k * b,
                Coefficient::Float(k) => trunc_div(k * b, FLOAT_UNIT as int),
            },
        ),
    ensures
        r == match c {
            Coefficient::Integer(k) => k * b,
            Coefficient::Float(k) => trunc_div(k * b, FLOAT_UNIT as int),
        },
{
    match c {
        Coefficient::Integer(k) => (k as i64) * b,
        Coefficient::Float(k) => {
            proof {
                assert(-0x8000_0000_0000_0000_0000_0000_0000_0000 <= (k as int) * (b as int)
                    <= 0x7fff_ffff_ffff_ffff_ffff_ffff_ffff_ffff) by (nonlinear_arith)
                    requires
                        i64::MIN <= k <= i64::MAX,
                        i64::MIN <= b <= i64::MAX,
                ;
            }
            let p: i128 = (k as i128) * (b as i128);
            assert(p == (k as int) * (b as int));
            if p >= 0 {
                let q: i128 = p / (FLOAT_UNIT as i128);
                assert(q == trunc_div((k as int) * (b as int), FLOAT_UNIT as int));
                q as i64
            } else {
                let n: i128 = -p;
                let q: i128 = n / (FLOAT_UNIT as i128);
                let r: i128 = -q;
                assert(r == trunc_div((k as int) * (b as int), FLOAT_UNIT as int));
                r as i64
            }
        },
    }
}

impl From<i32> for Coefficient {
    fn from(i: i32) -> (r: Coefficient) {
        Coefficient::Integer(i)
    }
}

impl vstd::std_specs::convert::FromSpecImpl<i32> for Coefficient {
    open spec fn obeys_from_spec() -> bool {
        true
    }

    open spec fn from_spec(i: i32) -> Coefficient {
        Coefficient::Integer(i)
    }
}

} // verus!
