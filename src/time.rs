//! Local (offset-free) timestamps and the half-open time range.

use vstd::prelude::*;

use datetime::{DatePiece, TimePiece};
use std::str::FromStr;

verus! {

/// The fields of the ISO 8601 local date-time that `text` writes, if it writes one:
/// year, month, day, hour, minute, second, millisecond.
pub uninterp spec fn iso_local_fields(text: Seq<char>) -> Option<(i64, i8, i8, i8, i8, i8, i16)>;

/// Relies on `datetime::LocalDateTime::from_str`: reads an ISO 8601 local date-time and
/// hands back its fields.
#[verifier::external_body]
fn parse_local_fields(text: &str) -> (r: Option<(i64, i8, i8, i8, i8, i8, i16)>)
    ensures
        r == iso_local_fields(text@),
{
    match datetime::LocalDateTime::from_str(text) {
        Ok(t) => Some((t.year(), t.month() as i8, t.day(), t.hour(), t.minute(), t.second(), t.millisecond())),
        Err(_) => None,
    }
}

/// A local date-time, ordered field by field from the year down to the millisecond.
#[derive(Debug, Clone, Copy, PartialEq, Eq, Structural)]
pub struct Timestamp {
    pub year: i64,
    pub month: i8,
    pub day: i8,
    pub hour: i8,
    pub minute: i8,
    pub second: i8,
    pub millisecond: i16,
}

/// The timestamp of a field tuple as `iso_local_fields` gives it.
pub open spec fn timestamp_of(f: (i64, i8, i8, i8, i8, i8, i16)) -> Timestamp {
    Timestamp { year: f.0, month: f.1, day: f.2, hour: f.3, minute: f.4, second: f.5, millisecond: f.6 }
}

/// The timestamp that `text` writes, if any.
pub open spec fn parse_timestamp(text: Seq<char>) -> Option<Timestamp> {
    match iso_local_fields(text) {
        Some(f) => Some(timestamp_of(f)),
        None => None,
    }
}

/// Strict chronological order.
pub open spec fn before(a: Timestamp, b: Timestamp) -> bool {
    if a.year != b.year {
        a.year < b.year
    } else if a.month != b.month {
        a.month < b.month
    } else if a.day != b.day {
        a.day < b.day
    } else if a.hour != b.hour {
        a.hour < b.hour
    } else if a.minute != b.minute {
        a.minute < b.minute
    } else if a.second != b.second {
        a.second < b.second
    } else {
        a.millisecond < b.millisecond
    }
}

/// Chronological order, equal instants included.
pub open spec fn not_after(a: Timestamp, b: Timestamp) -> bool {
    before(a, b) || a == b
}

impl Timestamp {
    /// Reads an ISO 8601 local date-time such as `2020-01-01T00:00:00`.
    pub fn parse(text: &str) -> (r: Option<Timestamp>)
        ensures
            r == parse_timestamp(text@),
    {
        match parse_local_fields(text) {
            Some(f) => Some(
                Timestamp {
                    year: f.0,
                    month: f.1,
                    day: f.2,
                    hour: f.3,
                    minute: f.4,
                    second: f.5,
                    millisecond: f.6,
                },
            ),
            None => None,
        }
    }

    /// Whether `self` comes strictly before `other`.
    pub fn is_before(&self, other: &Timestamp) -> (r: bool)
        ensures
            r == before(*self, *other),
    {
        if self.year != other.year {
            return self.year < other.year;
        }
        if self.month != other.month {
            return self.month < other.month;
        }
        if self.day != other.day {
            return self.day < other.day;
        }
        if self.hour != other.hour {
            return self.hour < other.hour;
        }
        if self.minute != other.minute {
            return self.minute < other.minute;
        }
        if self.second != other.second {
            return self.second < other.second;
        }
        self.millisecond < other.millisecond
    }
}

pub proof fn lemma_before_total(a: Timestamp, b: Timestamp)
    ensures
        before(a, b) || a == b || before(b, a),
        !(before(a, b) && before(b, a)),
        !before(a, a),
{
}

pub proof fn lemma_before_transitive(a: Timestamp, b: Timestamp, c: Timestamp)
    ensures
        not_after(a, b) && not_after(b, c) ==> not_after(a, c),
        before(a, b) && not_after(b, c) ==> before(a, c),
{
}

/// An optional inclusive lower bound and an optional exclusive upper bound.
#[derive(Debug, Clone, Copy, PartialEq, Eq, Structural)]
pub struct TimeRange {
    pub min: Option<Timestamp>,
    pub max: Option<Timestamp>,
}

/// `t >= min` when there is a lower bound, and `t < max` when there is an upper bound.
pub open spec fn in_range(range: TimeRange, t: Timestamp) -> bool {
    (match range.min {
        Some(lo) => !before(t, lo),
        None => true,
    }) && (match range.max {
        Some(hi) => before(t, hi),
        None => true,
    })
}

impl TimeRange {
    pub fn new(min: Option<Timestamp>, max: Option<Timestamp>) -> (r: TimeRange)
        ensures
            r.min == min,
            r.max == max,
    {
        TimeRange { min, max }
    }

    /// Whether `t` lies in the range.
    pub fn contains(&self, t: &Timestamp) -> (r: bool)
        ensures
            r == in_range(*self, *t),
    {
        let low_ok = match &self.min {
            Some(lo) => !t.is_before(lo),
            None => true,
        };
        let high_ok = match &self.max {
            Some(hi) => t.is_before(hi),
            None => true,
        };
        low_ok && high_ok
    }
}

/// The lower bound belongs to the range and the upper bound does not: a timestamp equal
/// to `min` is kept (when `max`, if any, lies after it) and one equal to `max` is not.
pub proof fn lemma_range_bounds(range: TimeRange)
    ensures
        range.min matches Some(lo) ==> (in_range(range, lo) <==> match range.max {
            Some(hi) => before(lo, hi),
            None => true,
        }),
        range.max matches Some(hi) ==> !in_range(range, hi),
        range.min is None && range.max is None ==> forall|t: Timestamp| in_range(range, t),
{
    if let Some(hi) = range.max {
        lemma_before_total(hi, hi);
    }
}

} // verus!
