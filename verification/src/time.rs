//! Points in time and durations, in seconds, each with its infinite values.

use vstd::prelude::*;

verus! {

/// A length of time in seconds, or the infinite duration.
#[derive(Debug, Clone, Copy, PartialEq, Eq, Structural, Hash)]
pub enum Duration {
    Length(u64),
    Infinity,
}

/// A point in time in seconds since the epoch, between the two points that
/// lie before and after every other.
#[derive(Debug, Clone, Copy, PartialEq, Eq, Structural, Hash)]
pub enum DateTime {
    Earliest,
    Point(u64),
    Latest,
}

/// The sum of two durations: infinite as soon as one of them is, or as soon
/// as the seconds no longer fit.
pub open spec fn duration_sum(a: Duration, b: Duration) -> Duration {
    match (a, b) {
        (Duration::Length(x), Duration::Length(y)) => if x + y <= u64::MAX {
            Duration::Length((x + y) as u64)
        } else {
            Duration::Infinity
        },
        _ => Duration::Infinity,
    }
}

pub open spec fn duration_le(a: Duration, b: Duration) -> bool {
    match (a, b) {
        (Duration::Length(x), Duration::Length(y)) => x <= y,
        (_, Duration::Infinity) => true,
        (Duration::Infinity, Duration::Length(_)) => false,
    }
}

/// The rank of a point in time on the integer line: the earliest point below
/// every second, the latest above.
pub open spec fn time_rank(t: DateTime) -> int {
    match t {
        DateTime::Earliest => -1,
        DateTime::Point(s) => s as int,
        DateTime::Latest => u64::MAX + 1,
    }
}

pub open spec fn time_le(a: DateTime, b: DateTime) -> bool {
    time_rank(a) <= time_rank(b)
}

/// The point reached from `t` after `d`. The earliest point lies before all
/// time and stays where it is, whatever the duration; from any other point
/// what does not fit is the latest point.
pub open spec fn time_after(t: DateTime, d: Duration) -> DateTime {
    match (t, d) {
        (DateTime::Earliest, _) => DateTime::Earliest,
        (DateTime::Latest, _) => DateTime::Latest,
        (DateTime::Point(_), Duration::Infinity) => DateTime::Latest,
        (DateTime::Point(s), Duration::Length(x)) => if s + x <= u64::MAX {
            DateTime::Point((s + x) as u64)
        } else {
            DateTime::Latest
        },
    }
}

impl Duration {
    pub fn zero() -> (d: Duration)
        ensures
            d == Duration::Length(0),
    {
        Duration::Length(0)
    }

    pub fn from_seconds(seconds: u64) -> (d: Duration)
        ensures
            d == Duration::Length(seconds),
    {
        Duration::Length(seconds)
    }

    /// The seconds of a finite duration; `None` for the infinite one.
    pub fn in_sec(&self) -> (s: Option<u64>)
        ensures
            s == match *self {
                Duration::Length(x) => Some(x),
                Duration::Infinity => None::<u64>,
            },
    {
        match self {
            Duration::Length(x) => Some(*x),
            Duration::Infinity => None,
        }
    }

    pub fn plus(&self, other: Duration) -> (d: Duration)
        ensures
            d == duration_sum(*self, other),
    {
        match (*self, other) {
            (Duration::Length(x), Duration::Length(y)) => match x.checked_add(y) {
                Some(s) => Duration::Length(s),
                None => Duration::Infinity,
            },
            _ => Duration::Infinity,
        }
    }

    pub fn le(&self, other: Duration) -> (b: bool)
        ensures
            b == duration_le(*self, other),
    {
        match (*self, other) {
            (Duration::Length(x), Duration::Length(y)) => x <= y,
            (_, Duration::Infinity) => true,
            (Duration::Infinity, Duration::Length(_)) => false,
        }
    }
}

impl DateTime {
    pub fn from_seconds(seconds: u64) -> (t: DateTime)
        ensures
            t == DateTime::Point(seconds),
    {
        DateTime::Point(seconds)
    }

    pub fn plus(&self, d: Duration) -> (t: DateTime)
        ensures
            t == time_after(*self, d),
    {
        match (*self, d) {
            (DateTime::Earliest, _) => DateTime::Earliest,
            (DateTime::Latest, _) => DateTime::Latest,
            (DateTime::Point(_), Duration::Infinity) => DateTime::Latest,
            (DateTime::Point(s), Duration::Length(x)) => match s.checked_add(x) {
                Some(r) => DateTime::Point(r),
                None => DateTime::Latest,
            },
        }
    }

    pub fn le(&self, other: DateTime) -> (b: bool)
        ensures
            b == time_le(*self, other),
    {
        match (*self, other) {
            (DateTime::Earliest, _) => true,
            (_, DateTime::Latest) => true,
            (DateTime::Point(a), DateTime::Point(b)) => a <= b,
            (DateTime::Latest, _) => false,
            (DateTime::Point(_), DateTime::Earliest) => false,
        }
    }

    pub fn lt(&self, other: DateTime) -> (b: bool)
        ensures
            b == !time_le(other, *self),
    {
        !other.le(*self)
    }
}

/// Time never runs backwards: a point is not after the point reached from it.
pub proof fn lemma_time_after_is_later(t: DateTime, d: Duration)
    ensures
        time_le(t, time_after(t, d)),
{
}

} // verus!
