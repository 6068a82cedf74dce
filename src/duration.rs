//! Durations of time in whole seconds, with an infinite duration above all finite ones.
use crate::converters::from_d_hh_mm_ss_to_seconds;
use crate::converters::from_h_mm_ss_to_seconds;
use crate::converters::from_seconds_to_h_mm_ss;
use crate::text::{
    chars_of, decimal, fields, is_digit, is_number, lemma_decimal_grows, lemma_decimal_nonneg,
    numeric_fields, padded, parse_fields, push_padded,
};
use std::cmp::Ordering;
use vstd::prelude::*;
use vstd::string::*;

verus! {

/// A duration of time.
/// * Besides a finite length it can be infinite ([`Duration::Infinity`]), which is longer than
///   every finite duration.
/// * The smallest unit is a second; durations are never negative.
#[derive(Copy, Clone, PartialEq, Eq, Structural, PartialOrd, Ord, Debug)]
pub enum Duration {
    /// A time duration of finite length.
    Length(DurationLength),
    /// An infinite time duration.
    Infinity,
}

/// A finite duration of time.
#[derive(Copy, Clone, PartialEq, Eq, Structural, PartialOrd, Ord, Debug)]
pub struct DurationLength {
    /// The length in seconds.
    pub seconds: u64,
}

/// The order of durations: finite ones by length, all of them below `Infinity`.
pub open spec fn duration_cmp(a: Duration, b: Duration) -> Ordering {
    match (a, b) {
        (Duration::Length(x), Duration::Length(y)) => {
            if x.seconds < y.seconds {
                Ordering::Less
            } else if x.seconds == y.seconds {
                Ordering::Equal
            } else {
                Ordering::Greater
            }
        },
        (Duration::Length(_), Duration::Infinity) => Ordering::Less,
        (Duration::Infinity, Duration::Length(_)) => Ordering::Greater,
        (Duration::Infinity, Duration::Infinity) => Ordering::Equal,
    }
}

/// Whether `a` is at most as long as `b`.
pub open spec fn duration_le(a: Duration, b: Duration) -> bool {
    duration_cmp(a, b) != Ordering::Greater
}

/// Whether `a + b` can be formed (a finite sum fits in a `u64`).
pub open spec fn duration_addable(a: Duration, b: Duration) -> bool {
    match (a, b) {
        (Duration::Length(x), Duration::Length(y)) => x.seconds + y.seconds <= u64::MAX,
        _ => true,
    }
}

/// The sum `a + b`, infinite where either is.
pub open spec fn duration_sum(a: Duration, b: Duration) -> Duration {
    match (a, b) {
        (Duration::Length(x), Duration::Length(y)) => Duration::Length(
            DurationLength { seconds: (x.seconds + y.seconds) as u64 },
        ),
        _ => Duration::Infinity,
    }
}

/// The difference `a - b` for `b <= a`; infinite where `a` is.
pub open spec fn duration_diff(a: Duration, b: Duration) -> Duration {
    match (a, b) {
        (Duration::Length(x), Duration::Length(y)) => Duration::Length(
            DurationLength { seconds: (x.seconds - y.seconds) as u64 },
        ),
        _ => Duration::Infinity,
    }
}

/// Whether `s` has the form `h:mm` or `h:mm:ss` with minutes and seconds below 60, and the
/// number of seconds fits in a `u64`.
pub open spec fn is_clock_duration(s: Seq<char>) -> bool {
    let f = fields(s, seq![':']);
    &&& numeric_fields(s, seq![':'])
    &&& 2 <= f.len() <= 3
    &&& decimal(f[1]) < 60
    &&& f.len() == 3 ==> decimal(f[2]) < 60
    &&& clock_duration_seconds(s) <= u64::MAX
}

/// The number of seconds that the text `h:mm` or `h:mm:ss` stands for.
pub open spec fn clock_duration_seconds(s: Seq<char>) -> int {
    let f = fields(s, seq![':']);
    decimal(f[0]) * 3600 + decimal(f[1]) * 60 + if f.len() == 3 {
        decimal(f[2])
    } else {
        0
    }
}

/// What has been read of an ISO 8601 duration such as `P10DT2H31M2S`: days, hours, minutes and
/// seconds so far, and the digits since the last designator.
pub struct IsoReading {
    pub days: int,
    pub hours: int,
    pub minutes: int,
    pub seconds: int,
    pub pending: Seq<char>,
}

/// Whether `c` is one of the designators `P`, `D`, `T`, `H`, `M`, `S`.
pub open spec fn is_designator(c: char) -> bool {
    c == 'P' || c == 'D' || c == 'T' || c == 'H' || c == 'M' || c == 'S'
}

/// Reads `s` from left to right: digits are collected; `D`, `H`, `M` and `S` set the days,
/// hours, minutes or seconds to the collected number (which must be non-empty and fit: a `u64`
/// for days, a `u8` for the others); `P` and `T` drop what was collected. `None` where a
/// character is neither a digit nor a designator, or a number does not fit.
pub open spec fn iso_reading(s: Seq<char>) -> Option<IsoReading>
    decreases s.len(),
{
    if s.len() == 0 {
        Some(IsoReading { days: 0, hours: 0, minutes: 0, seconds: 0, pending: Seq::empty() })
    } else {
        match iso_reading(s.drop_last()) {
            None => None,
            Some(r) => {
                let c = s.last();
                if is_digit(c) {
                    Some(IsoReading { pending: r.pending.push(c), ..r })
                } else if c == 'P' || c == 'T' {
                    Some(IsoReading { pending: Seq::empty(), ..r })
                } else if c == 'D' && is_number(r.pending) && decimal(r.pending) <= u64::MAX {
                    Some(IsoReading { days: decimal(r.pending), pending: Seq::empty(), ..r })
                } else if c == 'H' && is_number(r.pending) && decimal(r.pending) <= 255 {
                    Some(IsoReading { hours: decimal(r.pending), pending: Seq::empty(), ..r })
                } else if c == 'M' && is_number(r.pending) && decimal(r.pending) <= 255 {
                    Some(IsoReading { minutes: decimal(r.pending), pending: Seq::empty(), ..r })
                } else if c == 'S' && is_number(r.pending) && decimal(r.pending) <= 255 {
                    Some(IsoReading { seconds: decimal(r.pending), pending: Seq::empty(), ..r })
                } else {
                    None
                }
            },
        }
    }
}

/// Number of pieces of `s` when it is cut after each designator.
pub open spec fn iso_piece_count(s: Seq<char>) -> int {
    s.filter(|c: char| is_designator(c)).len() + if s.len() > 0 && !is_designator(s.last()) {
        1int
    } else {
        0
    }
}

/// Whether `s` is an ISO 8601 duration that [`Duration::from_iso`] accepts.
pub open spec fn is_iso_duration(s: Seq<char>) -> bool {
    &&& iso_reading(s) is Some
    &&& iso_piece_count(s) <= 7
    &&& iso_reading(s)->0.hours < 24
    &&& iso_reading(s)->0.minutes < 60
    &&& iso_reading(s)->0.seconds < 60
    &&& iso_seconds(s) <= u64::MAX
}

/// The number of seconds of an ISO 8601 duration.
pub open spec fn iso_seconds(s: Seq<char>) -> int {
    let r = iso_reading(s)->0;
    r.days * 86400 + r.hours * 3600 + r.minutes * 60 + r.seconds
}

impl Duration {
    /// The finite duration of `seconds` seconds.
    pub open spec fn of_seconds(seconds: int) -> Duration {
        Duration::Length(DurationLength { seconds: seconds as u64 })
    }

    /// Returns the duration in minutes (rounded down); an error for [`Duration::Infinity`].
    pub fn in_min(&self) -> (r: Result<u64, &str>)
        ensures
            match *self {
                Duration::Length(l) => r == Ok::<u64, &str>(l.seconds / 60),
                Duration::Infinity => r is Err,
            },
    {
        match self {
            Duration::Length(l) => Ok(l.seconds / 60),
            Duration::Infinity => Err("Cannot get minutes of Duration::Infinity."),
        }
    }

    /// Returns the duration in seconds; an error for [`Duration::Infinity`].
    pub fn in_sec(&self) -> (r: Result<u64, &str>)
        ensures
            match *self {
                Duration::Length(l) => r == Ok::<u64, &str>(l.seconds),
                Duration::Infinity => r is Err,
            },
    {
        match self {
            Duration::Length(l) => Ok(l.seconds),
            Duration::Infinity => Err("Cannot get seconds of Duration::Infinity."),
        }
    }

    /// The zero duration.
    pub fn zero() -> (r: Duration)
        ensures
            r == Duration::of_seconds(0),
    {
        Duration::Length(DurationLength { seconds: 0 })
    }

    /// Creates a [`Duration`] from text of the form `hh:mm` or `hh:mm:ss`.
    pub fn new(string: &str) -> (r: Duration)
        requires
            is_clock_duration(string@),
        ensures
            r == Duration::of_seconds(clock_duration_seconds(string@)),
    {
        let chars = chars_of(string);
        let sep: [char; 1] = [':'];
        proof {
            assert(sep@ =~= seq![':']);
        }
        let values = parse_fields(&chars, &sep);
        let values = match values {
            Some(v) => v,
            None => {
                proof {
                    assert(false);
                }
                Vec::new()
            },
        };
        let hours: u64 = values[0];
        let minutes: u8 = values[1] as u8;
        let seconds: u8 = if values.len() == 2 {
            0
        } else {
            values[2] as u8
        };
        Duration::Length(DurationLength { seconds: from_h_mm_ss_to_seconds(hours, minutes, seconds) })
    }

    /// Creates a [`Duration`] from a number of seconds.
    pub fn from_seconds(seconds: u64) -> (r: Duration)
        ensures
            r == Duration::of_seconds(seconds as int),
    {
        Duration::Length(DurationLength { seconds })
    }

    /// Creates a [`Duration`] from an ISO 8601 duration such as `P10DT0H31M02S`.
    pub fn from_iso(string: &str) -> (r: Duration)
        requires
            is_iso_duration(string@),
        ensures
            r == Duration::of_seconds(iso_seconds(string@)),
    {
        let chars = chars_of(string);
        let mut days: u64 = 0;
        let mut hours: u8 = 0;
        let mut minutes: u8 = 0;
        let mut seconds: u8 = 0;
        let mut pending: u64 = 0;
        let mut pending_len: usize = 0;
        let mut i: usize = 0;
        proof {
            lemma_iso_prefix_some(chars@, 0);
        }
        while i < chars.len()
            invariant
                i <= chars@.len(),
                chars@ == string@,
                iso_reading(chars@) is Some,
                ({
                    let r = iso_reading(chars@.take(i as int));
                    &&& r is Some
                    &&& r->0.days == days
                    &&& r->0.hours == hours
                    &&& r->0.minutes == minutes
                    &&& r->0.seconds == seconds
                    &&& r->0.pending.len() == pending_len
                    &&& pending_len <= i
                    &&& forall|k: int|
                        0 <= k < r->0.pending.len() ==> is_digit(#[trigger] r->0.pending[k])
                    &&& (decimal(r->0.pending) <= u64::MAX ==> pending == decimal(r->0.pending))
                }),
            decreases chars@.len() - i,
        {
            let c = chars[i];
            let ghost before = iso_reading(chars@.take(i as int))->0;
            proof {
                assert(chars@.take(i + 1).drop_last() =~= chars@.take(i as int));
                lemma_iso_prefix_some(chars@, i + 1);
                lemma_decimal_nonneg(before.pending);
            }
            if '0' <= c && c <= '9' {
                let d = (c as u64) - ('0' as u64);
                proof {
                    lemma_decimal_grows(before.pending, c);
                }
                if pending <= (u64::MAX - d) / 10 {
                    pending = pending * 10 + d;
                } else {
                    pending = u64::MAX;
                    proof {
                        assert(decimal(before.pending.push(c)) > u64::MAX);
                    }
                }
                pending_len += 1;
            } else {
                if c == 'D' {
                    days = pending;
                } else if c == 'H' {
                    hours = pending as u8;
                } else if c == 'M' {
                    minutes = pending as u8;
                } else if c == 'S' {
                    seconds = pending as u8;
                }
                pending = 0;
                pending_len = 0;
            }
            i += 1;
            proof {
                let r = iso_reading(chars@.take(i as int))->0;
                if is_digit(c) {
                    assert forall|k: int| 0 <= k < r.pending.len() implies is_digit(
                        #[trigger] r.pending[k],
                    ) by {
                        if k < before.pending.len() {
                            assert(r.pending[k] == before.pending[k]);
                        }
                    }
                }
            }
        }
        proof {
            assert(chars@.take(chars@.len() as int) =~= chars@);
        }
        Duration::Length(
            DurationLength { seconds: from_d_hh_mm_ss_to_seconds(days, hours, minutes, seconds) },
        )
    }

    /// The order of two durations.
    pub fn compare(&self, other: &Duration) -> (r: Ordering)
        ensures
            r == duration_cmp(*self, *other),
    {
        match (self, other) {
            (Duration::Length(x), Duration::Length(y)) => {
                if x.seconds < y.seconds {
                    Ordering::Less
                } else if x.seconds == y.seconds {
                    Ordering::Equal
                } else {
                    Ordering::Greater
                }
            },
            (Duration::Length(_), Duration::Infinity) => Ordering::Less,
            (Duration::Infinity, Duration::Length(_)) => Ordering::Greater,
            (Duration::Infinity, Duration::Infinity) => Ordering::Equal,
        }
    }

    /// The sum of two durations; infinite where either is.
    pub fn add(self, other: Duration) -> (r: Duration)
        requires
            duration_addable(self, other),
        ensures
            r == duration_sum(self, other),
    {
        match self {
            Duration::Infinity => Duration::Infinity,
            Duration::Length(l1) => match other {
                Duration::Infinity => Duration::Infinity,
                Duration::Length(l2) => Duration::Length(l1.add(l2)),
            },
        }
    }

    /// The difference of two durations; `other` must not be longer than `self`.
    /// `Infinity` minus anything is `Infinity`.
    pub fn sub(self, other: Duration) -> (r: Duration)
        requires
            duration_le(other, self),
        ensures
            r == duration_diff(self, other),
    {
        match self {
            Duration::Infinity => Duration::Infinity,
            Duration::Length(l1) => match other {
                Duration::Infinity => Duration::Infinity,
                Duration::Length(l2) => Duration::Length(l1.sub(l2)),
            },
        }
    }

    /// The sum of all `durations` (zero for none).
    pub fn sum(durations: &Vec<Duration>) -> (r: Duration)
        requires
            sum_fits(durations@),
        ensures
            r == sum_of(durations@),
    {
        let mut total = Duration::zero();
        let mut i: usize = 0;
        while i < durations.len()
            invariant
                i <= durations@.len(),
                sum_fits(durations@),
                total == sum_of(durations@.take(i as int)),
            decreases durations@.len() - i,
        {
            proof {
                assert(durations@.take(i + 1).drop_last() =~= durations@.take(i as int));
                lemma_sum_fits_prefix(durations@, i + 1);
            }
            total = total.add(durations[i]);
            i += 1;
        }
        assert(durations@.take(durations@.len() as int) =~= durations@);
        total
    }

    /// The duration as text: `hh:mm:ssh`, or `hh:mmh` where the seconds are zero; `Inf` for an
    /// infinite duration.
    pub fn to_string(&self) -> (r: String)
        ensures
            r@ == duration_text(*self),
    {
        match self {
            Duration::Length(l) => {
                let (hours, minutes, seconds) = from_seconds_to_h_mm_ss(l.seconds);
                let mut s = String::new();
                push_padded(&mut s, hours, 2);
                proof {
                    reveal_strlit(":");
                    reveal_strlit("h");
                }
                s.append(":");
                push_padded(&mut s, minutes as u64, 2);
                if seconds > 0 {
                    s.append(":");
                    push_padded(&mut s, seconds as u64, 2);
                }
                s.append("h");
                s
            },
            Duration::Infinity => {
                proof {
                    reveal_strlit("Inf");
                }
                String::from_str("Inf")
            },
        }
    }
}

/// The text of a duration: `hh:mm:ssh`, `hh:mmh` where the seconds are zero, or `Inf`.
pub open spec fn duration_text(d: Duration) -> Seq<char> {
    match d {
        Duration::Length(l) => {
            let h = (l.seconds / 3600) as nat;
            let m = ((l.seconds % 3600) / 60) as nat;
            let s = (l.seconds % 60) as nat;
            padded(h, 2) + seq![':'] + padded(m, 2) + (if s > 0 {
                seq![':'] + padded(s, 2)
            } else {
                Seq::empty()
            }) + seq!['h']
        },
        Duration::Infinity => seq!['I', 'n', 'f'],
    }
}

/// The sum of a sequence of durations, from the left.
pub open spec fn sum_of(ds: Seq<Duration>) -> Duration
    decreases ds.len(),
{
    if ds.len() == 0 {
        Duration::of_seconds(0)
    } else {
        duration_sum(sum_of(ds.drop_last()), ds.last())
    }
}

/// Whether every partial sum of `ds` fits in a `u64`.
pub open spec fn sum_fits(ds: Seq<Duration>) -> bool
    decreases ds.len(),
{
    if ds.len() == 0 {
        true
    } else {
        sum_fits(ds.drop_last()) && duration_addable(sum_of(ds.drop_last()), ds.last())
    }
}

proof fn lemma_sum_fits_prefix(ds: Seq<Duration>, i: int)
    requires
        0 <= i <= ds.len(),
        sum_fits(ds),
    ensures
        sum_fits(ds.take(i)),
    decreases ds.len() - i,
{
    if i < ds.len() {
        lemma_sum_fits_prefix(ds, i + 1);
        assert(ds.take(i + 1).drop_last() =~= ds.take(i));
    } else {
        assert(ds.take(i) =~= ds);
    }
}

proof fn lemma_iso_prefix_some(s: Seq<char>, i: int)
    requires
        0 <= i <= s.len(),
        iso_reading(s) is Some,
    ensures
        iso_reading(s.take(i)) is Some,
    decreases s.len() - i,
{
    if i < s.len() {
        lemma_iso_prefix_some(s, i + 1);
        assert(s.take(i + 1).drop_last() =~= s.take(i));
    } else {
        assert(s.take(i) =~= s);
    }
}

impl DurationLength {
    /// The sum of two finite durations.
    pub fn add(self, other: DurationLength) -> (r: DurationLength)
        requires
            self.seconds + other.seconds <= u64::MAX,
        ensures
            r.seconds == self.seconds + other.seconds,
    {
        DurationLength { seconds: self.seconds + other.seconds }
    }

    /// The difference of two finite durations; `other` must not be longer than `self`.
    pub fn sub(self, other: DurationLength) -> (r: DurationLength)
        requires
            other.seconds <= self.seconds,
        ensures
            r.seconds == self.seconds - other.seconds,
    {
        DurationLength { seconds: self.seconds - other.seconds }
    }
}

} // verus!
