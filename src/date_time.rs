//! Points in time in whole seconds, with an earliest and a latest point beyond all others.
//! Leap years are taken into account, daylight saving time is not.
use crate::converters::{
    date_to_days, from_days_seconds_to_yyyy_mm_dd_hh_mm_ss,
    from_yyyy_mm_dd_hh_mm_ss_to_days_seconds, is_valid_date,
};
use crate::duration::{Duration, DurationLength};
use crate::text::{chars_without, decimal, fields, numeric_fields, padded, parse_fields, push_padded, without};
use std::cmp::Ordering;
use vstd::prelude::*;
use vstd::string::*;

verus! {

/// The first day that lies beyond the range of [`TimePoint`].
pub const DAY_LIMIT: u64 = 1568704557546;

/// A point in time.
/// * [`DateTime::Earliest`] and [`DateTime::Latest`] lie before and after all actual points.
/// * A [`Duration`] can be added or subtracted; two points can be subtracted to obtain a
///   duration, where the left operand is the later one.
#[derive(Copy, Clone, PartialEq, Eq, Structural, PartialOrd, Ord, Debug)]
pub enum DateTime {
    /// The earliest possible point in time.
    Earliest,
    /// An actual point in time.
    Point(TimePoint),
    /// The latest possible point in time.
    Latest,
}

/// An actual point in time: a day number (day 0 is 0000-01-01) and the second of that day.
#[derive(Copy, Clone, PartialEq, Eq, Structural, PartialOrd, Ord, Debug)]
pub struct TimePoint {
    days: u64,
    seconds: u32,
}

impl TimePoint {
    /// The day number (day 0 is 0000-01-01).
    pub closed spec fn day(self) -> int {
        self.days as int
    }

    /// The second of the day.
    pub closed spec fn second(self) -> int {
        self.seconds as int
    }

    /// The number of seconds since the start of day 0.
    pub open spec fn total(self) -> int {
        self.day() * 86400 + self.second()
    }

    #[verifier::type_invariant]
    spec fn inv(self) -> bool {
        &&& self.days < DAY_LIMIT
        &&& self.seconds < 921600
    }
}

/// The order of points in time: `Earliest`, then actual points by day and second, then `Latest`.
pub open spec fn date_time_cmp(a: DateTime, b: DateTime) -> Ordering {
    match (a, b) {
        (DateTime::Earliest, DateTime::Earliest) => Ordering::Equal,
        (DateTime::Earliest, _) => Ordering::Less,
        (_, DateTime::Earliest) => Ordering::Greater,
        (DateTime::Latest, DateTime::Latest) => Ordering::Equal,
        (DateTime::Latest, _) => Ordering::Greater,
        (_, DateTime::Latest) => Ordering::Less,
        (DateTime::Point(x), DateTime::Point(y)) => {
            if x.day() < y.day() || (x.day() == y.day() && x.second() < y.second()) {
                Ordering::Less
            } else if x.day() == y.day() && x.second() == y.second() {
                Ordering::Equal
            } else {
                Ordering::Greater
            }
        },
    }
}

/// The separators between the fields of a date and time.
pub open spec fn date_time_separators() -> Seq<char> {
    seq!['T', '-', ' ', ':']
}

/// The fields of a date and time text, with every `Z` removed.
pub open spec fn date_time_fields(s: Seq<char>) -> Seq<Seq<char>> {
    fields(without(s, 'Z'), date_time_separators())
}

/// Whether `s` is a date and time `year-month-dayThour:minute[:second]` (any of `T`, `-`, space
/// and `:` may separate the fields, `Z` is ignored) with a valid date, an hour of at most 24, a
/// minute below 60 and a second of at most 255, within the range of [`TimePoint`].
pub open spec fn is_date_time_text(s: Seq<char>) -> bool {
    let f = date_time_fields(s);
    &&& numeric_fields(without(s, 'Z'), date_time_separators())
    &&& 5 <= f.len() <= 6
    &&& decimal(f[0]) <= u32::MAX
    &&& is_valid_date(decimal(f[0]), decimal(f[1]), decimal(f[2]))
    &&& decimal(f[3]) <= 24
    &&& decimal(f[4]) < 60
    &&& f.len() == 6 ==> decimal(f[5]) <= 255
    &&& date_to_days(decimal(f[0]), decimal(f[1]), decimal(f[2])) < DAY_LIMIT
}

/// The day number of a date and time text.
pub open spec fn text_days(s: Seq<char>) -> int {
    let f = date_time_fields(s);
    date_to_days(decimal(f[0]), decimal(f[1]), decimal(f[2]))
}

/// The second of the day of a date and time text.
pub open spec fn text_seconds(s: Seq<char>) -> int {
    let f = date_time_fields(s);
    decimal(f[3]) * 3600 + decimal(f[4]) * 60 + if f.len() == 6 {
        decimal(f[5])
    } else {
        0
    }
}

/// Whether `t + d` stays within the range of [`TimePoint`].
pub open spec fn can_add(t: DateTime, d: Duration) -> bool {
    match (t, d) {
        (DateTime::Point(p), Duration::Length(l)) => (p.second() + l.seconds) / 86400 + p.day()
            < DAY_LIMIT,
        _ => true,
    }
}

/// The point `d` after `t`: adding an infinite duration gives `Latest`; `Earliest` and
/// `Latest` stay as they are under a finite duration.
pub open spec fn date_time_plus(t: DateTime, d: Duration, r: DateTime) -> bool {
    match d {
        Duration::Infinity => r == DateTime::Latest,
        Duration::Length(l) => match t {
            DateTime::Point(p) => match r {
                DateTime::Point(q) => {
                    &&& q.day() == p.day() + (p.second() + l.seconds) / 86400
                    &&& q.second() == (p.second() + l.seconds) % 86400
                },
                _ => false,
            },
            _ => r == t,
        },
    }
}

/// Whether `t - d` can be formed: not `Latest - Infinity`, and not before day 0.
pub open spec fn can_sub_duration(t: DateTime, d: Duration) -> bool {
    match (t, d) {
        (DateTime::Latest, Duration::Infinity) => false,
        (DateTime::Point(p), Duration::Length(l)) => l.seconds <= p.total() && (p.total()
            - l.seconds) / 86400 < DAY_LIMIT,
        _ => true,
    }
}

/// The point `d` before `t`.
pub open spec fn date_time_minus(t: DateTime, d: Duration, r: DateTime) -> bool {
    match t {
        DateTime::Point(p) => match d {
            Duration::Infinity => r == DateTime::Earliest,
            Duration::Length(l) => match r {
                DateTime::Point(q) => {
                    &&& q.day() == (p.total() - l.seconds) / 86400
                    &&& q.second() == (p.total() - l.seconds) % 86400
                },
                _ => false,
            },
        },
        _ => r == t,
    }
}

/// Whether `later - earlier` can be formed: `earlier` is not after `later`, in the order of
/// points and in their number of seconds.
pub open spec fn can_subtract(later: DateTime, earlier: DateTime) -> bool {
    &&& date_time_cmp(earlier, later) != Ordering::Greater
    &&& match (later, earlier) {
        (DateTime::Point(a), DateTime::Point(b)) => b.total() <= a.total(),
        _ => true,
    }
}

/// The duration from `earlier` to `later`; infinite where exactly one of them is `Earliest` or
/// `Latest`.
pub open spec fn date_time_difference(later: DateTime, earlier: DateTime) -> Duration {
    match (later, earlier) {
        (DateTime::Point(a), DateTime::Point(b)) => Duration::of_seconds(a.total() - b.total()),
        (DateTime::Earliest, DateTime::Earliest) => Duration::of_seconds(0),
        (DateTime::Latest, DateTime::Latest) => Duration::of_seconds(0),
        _ => Duration::Infinity,
    }
}

/// The text `yyyy-mm-ddThh:mm:ss` of a day number and second of the day, or `EARLIEST` or
/// `LATEST`.
pub open spec fn iso_text(t: DateTime) -> Seq<char> {
    match t {
        DateTime::Earliest => seq!['E', 'A', 'R', 'L', 'I', 'E', 'S', 'T'],
        DateTime::Latest => seq!['L', 'A', 'T', 'E', 'S', 'T'],
        DateTime::Point(p) => {
            let (y, m, d) = calendar_date(p.day());
            padded(y, 4) + seq!['-'] + padded(m, 2) + seq!['-'] + padded(d, 2) + seq!['T']
                + padded((p.second() / 3600) as nat, 2) + seq![':'] + padded(
                ((p.second() % 3600) / 60) as nat,
                2,
            ) + seq![':'] + padded((p.second() % 60) as nat, 2)
        },
    }
}

/// The calendar date `(year, month, day)` of a day number.
pub open spec fn calendar_date(days: int) -> (nat, nat, nat) {
    let ymd = choose|ymd: (nat, nat, nat)|
        is_valid_date(ymd.0 as int, ymd.1 as int, ymd.2 as int) && date_to_days(
            ymd.0 as int,
            ymd.1 as int,
            ymd.2 as int,
        ) == days;
    ymd
}

/// The text `dd.mm.yyyy_hh:mm:ss` (without `:ss` where the seconds are zero), or `Earliest`
/// or `Latest`.
pub open spec fn date_time_text(t: DateTime) -> Seq<char> {
    match t {
        DateTime::Earliest => seq!['E', 'a', 'r', 'l', 'i', 'e', 's', 't'],
        DateTime::Latest => seq!['L', 'a', 't', 'e', 's', 't'],
        DateTime::Point(p) => {
            let (y, m, d) = calendar_date(p.day());
            let sec = (p.second() % 60) as nat;
            padded(d, 2) + seq!['.'] + padded(m, 2) + seq!['.'] + padded(y, 0) + seq!['_']
                + padded((p.second() / 3600) as nat, 2) + seq![':'] + padded(
                ((p.second() % 3600) / 60) as nat,
                2,
            ) + (if sec > 0 {
                seq![':'] + padded(sec, 2)
            } else {
                Seq::empty()
            })
        },
    }
}

proof fn lemma_calendar_date(days: int, y: nat, m: nat, d: nat)
    requires
        is_valid_date(y as int, m as int, d as int),
        date_to_days(y as int, m as int, d as int) == days,
    ensures
        calendar_date(days) == (y, m, d),
{
    let w = (y, m, d);
    assert(is_valid_date(w.0 as int, w.1 as int, w.2 as int) && date_to_days(
        w.0 as int,
        w.1 as int,
        w.2 as int,
    ) == days);
    let ymd = calendar_date(days);
    assert(is_valid_date(ymd.0 as int, ymd.1 as int, ymd.2 as int) && date_to_days(
        ymd.0 as int,
        ymd.1 as int,
        ymd.2 as int,
    ) == days);
    crate::converters::lemma_date_unique(y as int, m as int, d as int, ymd.0 as int, ymd.1 as int, ymd.2 as int);
}

impl DateTime {
    /// Creates a [`DateTime`] from text such as `2009-06-15T13:45:13` or `2009-4-15T12:10`.
    pub fn new(string: &str) -> (r: DateTime)
        requires
            is_date_time_text(string@),
        ensures
            match r {
                DateTime::Point(p) => p.day() == text_days(string@) && p.second() == text_seconds(
                    string@,
                ),
                _ => false,
            },
    {
        let shortened = chars_without(string, 'Z');
        let seps: [char; 4] = ['T', '-', ' ', ':'];
        proof {
            assert(seps@ =~= date_time_separators());
        }
        let values = match parse_fields(&shortened, &seps) {
            Some(v) => v,
            None => {
                proof {
                    assert(false);
                }
                Vec::new()
            },
        };
        let year: u32 = values[0] as u32;
        let month: u8 = values[1] as u8;
        let day: u8 = values[2] as u8;
        let hour: u8 = values[3] as u8;
        let minute: u8 = values[4] as u8;
        let second: u8 = if values.len() == 6 {
            values[5] as u8
        } else {
            0
        };
        proof {
            let f = date_time_fields(string@);
            crate::converters::lemma_date_within_year(
                decimal(f[0]),
                decimal(f[1]),
                decimal(f[2]),
            );
        }
        let (days, seconds) = from_yyyy_mm_dd_hh_mm_ss_to_days_seconds(
            year,
            month,
            day,
            hour,
            minute,
            second,
        );
        DateTime::Point(TimePoint { days, seconds })
    }

    /// The point as text `yyyy-mm-ddThh:mm:ss`, or `EARLIEST` or `LATEST`.
    pub fn as_iso(&self) -> (r: String)
        ensures
            r@ == iso_text(*self),
    {
        match self {
            DateTime::Earliest => {
                proof {
                    reveal_strlit("EARLIEST");
                }
                String::from_str("EARLIEST")
            },
            DateTime::Point(t) => {
                proof {
                    use_type_invariant(t);
                }
                let (year, month, day, hour, minute, second) =
                    from_days_seconds_to_yyyy_mm_dd_hh_mm_ss(t.days, t.seconds);
                proof {
                    lemma_calendar_date(t.days as int, year as nat, month as nat, day as nat);
                    reveal_strlit("-");
                    reveal_strlit("T");
                    reveal_strlit(":");
                }
                let mut s = String::new();
                push_padded(&mut s, year as u64, 4);
                s.append("-");
                push_padded(&mut s, month as u64, 2);
                s.append("-");
                push_padded(&mut s, day as u64, 2);
                s.append("T");
                push_padded(&mut s, hour as u64, 2);
                s.append(":");
                push_padded(&mut s, minute as u64, 2);
                s.append(":");
                push_padded(&mut s, second as u64, 2);
                s
            },
            DateTime::Latest => {
                proof {
                    reveal_strlit("LATEST");
                }
                String::from_str("LATEST")
            },
        }
    }

    /// The point as text `dd.mm.yyyy_hh:mm:ss` (without `:ss` where the seconds are zero), or
    /// `Earliest` or `Latest`.
    pub fn to_string(&self) -> (r: String)
        ensures
            r@ == date_time_text(*self),
    {
        match self {
            DateTime::Earliest => {
                proof {
                    reveal_strlit("Earliest");
                }
                String::from_str("Earliest")
            },
            DateTime::Point(t) => {
                proof {
                    use_type_invariant(t);
                }
                let (year, month, day, hour, minute, second) =
                    from_days_seconds_to_yyyy_mm_dd_hh_mm_ss(t.days, t.seconds);
                proof {
                    lemma_calendar_date(t.days as int, year as nat, month as nat, day as nat);
                    reveal_strlit(".");
                    reveal_strlit("_");
                    reveal_strlit(":");
                }
                let mut s = String::new();
                push_padded(&mut s, day as u64, 2);
                s.append(".");
                push_padded(&mut s, month as u64, 2);
                s.append(".");
                push_padded(&mut s, year as u64, 0);
                s.append("_");
                push_padded(&mut s, hour as u64, 2);
                s.append(":");
                push_padded(&mut s, minute as u64, 2);
                if second > 0 {
                    s.append(":");
                    push_padded(&mut s, second as u64, 2);
                }
                s
            },
            DateTime::Latest => {
                proof {
                    reveal_strlit("Latest");
                }
                String::from_str("Latest")
            },
        }
    }

    /// The order of two points in time.
    pub fn compare(&self, other: &DateTime) -> (r: Ordering)
        ensures
            r == date_time_cmp(*self, *other),
    {
        match (self, other) {
            (DateTime::Earliest, DateTime::Earliest) => Ordering::Equal,
            (DateTime::Earliest, _) => Ordering::Less,
            (_, DateTime::Earliest) => Ordering::Greater,
            (DateTime::Latest, DateTime::Latest) => Ordering::Equal,
            (DateTime::Latest, _) => Ordering::Greater,
            (_, DateTime::Latest) => Ordering::Less,
            (DateTime::Point(x), DateTime::Point(y)) => {
                if x.days < y.days || (x.days == y.days && x.seconds < y.seconds) {
                    Ordering::Less
                } else if x.days == y.days && x.seconds == y.seconds {
                    Ordering::Equal
                } else {
                    Ordering::Greater
                }
            },
        }
    }

    /// The point `other` after `self`.
    pub fn add(self, other: Duration) -> (r: DateTime)
        requires
            can_add(self, other),
        ensures
            date_time_plus(self, other, r),
    {
        match other {
            Duration::Infinity => DateTime::Latest,
            Duration::Length(l) => match self {
                DateTime::Earliest => DateTime::Earliest,
                DateTime::Point(t) => DateTime::Point(t.add(l)),
                DateTime::Latest => DateTime::Latest,
            },
        }
    }

    /// The point `other` before `self`.
    pub fn sub_duration(self, other: Duration) -> (r: DateTime)
        requires
            can_sub_duration(self, other),
        ensures
            date_time_minus(self, other, r),
    {
        match self {
            DateTime::Earliest => DateTime::Earliest,
            DateTime::Latest => DateTime::Latest,
            DateTime::Point(t) => match other {
                Duration::Infinity => DateTime::Earliest,
                Duration::Length(d) => DateTime::Point(t.sub_duration(d)),
            },
        }
    }

    /// The duration from `other` to `self`, where `other` is not the later point.
    pub fn sub(self, other: DateTime) -> (r: Duration)
        requires
            can_subtract(self, other),
        ensures
            r == date_time_difference(self, other),
    {
        match self {
            DateTime::Earliest => Duration::Length(DurationLength { seconds: 0 }),
            DateTime::Latest => {
                if other == DateTime::Latest {
                    Duration::Length(DurationLength { seconds: 0 })
                } else {
                    Duration::Infinity
                }
            },
            DateTime::Point(l1) => match other {
                DateTime::Earliest => Duration::Infinity,
                DateTime::Point(l2) => l1.sub(l2),
                DateTime::Latest => Duration::Infinity,
            },
        }
    }
}

impl TimePoint {
    /// The duration from `other` to `self`; `other` must not be later.
    pub fn sub(self, other: TimePoint) -> (r: Duration)
        requires
            other.total() <= self.total(),
        ensures
            r == Duration::of_seconds(self.total() - other.total()),
    {
        proof {
            use_type_invariant(self);
            use_type_invariant(other);
        }
        let self_seconds = self.days * 86400 + self.seconds as u64;
        let other_seconds = other.days * 86400 + other.seconds as u64;
        Duration::from_seconds(self_seconds - other_seconds)
    }

    /// The point `other` after `self`.
    pub fn add(self, other: DurationLength) -> (r: TimePoint)
        requires
            (self.second() + other.seconds) / 86400 + self.day() < DAY_LIMIT,
        ensures
            r.day() == self.day() + (self.second() + other.seconds) / 86400,
            r.second() == (self.second() + other.seconds) % 86400,
    {
        proof {
            use_type_invariant(self);
        }
        let seconds = self.seconds as u64 + other.seconds;
        let days = self.days + (seconds / 86400);
        TimePoint { days, seconds: (seconds % 86400) as u32 }
    }

    /// The point `other` before `self`; it must not lie before day 0.
    pub fn sub_duration(self, other: DurationLength) -> (r: TimePoint)
        requires
            other.seconds <= self.total(),
            (self.total() - other.seconds) / 86400 < DAY_LIMIT,
        ensures
            r.day() == (self.total() - other.seconds) / 86400,
            r.second() == (self.total() - other.seconds) % 86400,
    {
        proof {
            use_type_invariant(self);
        }
        let self_seconds = self.days * 86400 + self.seconds as u64;
        let seconds = self_seconds - other.seconds;
        TimePoint { days: seconds / 86400, seconds: (seconds % 86400) as u32 }
    }
}

} // verus!
