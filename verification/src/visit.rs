//! Visits: a country name together with the interval of time spent there.
//!
//! A `Visit` whose `end` is `None` is still open: no later ping has been
//! classified to a different country yet.

use vstd::prelude::*;
use core::cmp::Ordering;

use crate::order::key_lt;
use crate::order::str_lt;

verus! {

/// Lower bound on the timestamps this library formats as dates.
///
/// Chrono's calendar covers years -262144 to 262142; eight trillion seconds
/// (about 253,000 years) on either side of the epoch stay well inside it.
pub const TIMESTAMP_MIN: i64 = -8_000_000_000_000;

/// Upper bound on the timestamps this library formats as dates.
pub const TIMESTAMP_MAX: i64 = 8_000_000_000_000;

/// A point in time: seconds since the Unix epoch (1970-01-01 00:00:00 UTC).
#[derive(Clone, Copy, PartialEq, Eq, Structural, Debug)]
pub struct Timestamp {
    pub secs: i64,
}

impl Timestamp {
    /// The timestamp lies in the range whose dates this library can format.
    pub open spec fn wf(self) -> bool {
        TIMESTAMP_MIN <= self.secs <= TIMESTAMP_MAX
    }

    /// The calendar day this timestamp falls on, as days since the epoch.
    pub open spec fn spec_day(self) -> int {
        self.secs as int / 86400
    }

    pub fn new(secs: i64) -> (r: Timestamp)
        ensures
            r.secs == secs,
    {
        Timestamp { secs }
    }

    /// Days since the epoch, rounding toward minus infinity, so that two
    /// timestamps fall on the same calendar day exactly when they agree.
    pub fn day(self) -> (r: i64)
        ensures
            r as int == self.spec_day(),
    {
        let d = self.secs.checked_div_euclid(86400);
        d.unwrap()
    }
}

/// What `format_day` returns for a given timestamp: the day it falls on,
/// written as `%d %b %Y` by chrono. A function of the timestamp alone.
pub uninterp spec fn day_label_of(secs: int) -> Seq<char>;

/// What `format_year` returns for a given timestamp: the four-digit calendar
/// year of the day it falls on, written as `%Y` by chrono. A function of the
/// timestamp alone.
pub uninterp spec fn year_label_of(secs: int) -> Seq<char>;

/// Relies on chrono's `DateTime::<Utc>::from_timestamp` and its `%d %b %Y`
/// formatting: for an in-range timestamp the conversion succeeds, and the
/// formatted date depends on the timestamp alone.
#[verifier::external_body]
pub(crate) fn format_day(secs: i64) -> (r: String)
    requires
        TIMESTAMP_MIN <= secs <= TIMESTAMP_MAX,
    ensures
        r@ == day_label_of(secs as int),
{
    let dt = chrono::DateTime::<chrono::Utc>::from_timestamp(secs, 0).unwrap();
    dt.format("%d %b %Y").to_string()
}

/// Relies on chrono's `DateTime::<Utc>::from_timestamp` and its `%Y`
/// formatting: for an in-range timestamp the conversion succeeds, and the
/// formatted year depends on the timestamp alone.
#[verifier::external_body]
pub(crate) fn format_year(secs: i64) -> (r: String)
    requires
        TIMESTAMP_MIN <= secs <= TIMESTAMP_MAX,
    ensures
        r@ == year_label_of(secs as int),
{
    let dt = chrono::DateTime::<chrono::Utc>::from_timestamp(secs, 0).unwrap();
    dt.format("%Y").to_string()
}

/// A maximal run of consecutive pings classified to one country.
#[derive(Debug, Clone)]
pub struct Visit {
    pub country: String,
    pub start: Timestamp,
    pub end: Option<Timestamp>,
}

/// The mathematical content of a `Visit`: the country name as characters and
/// the interval bounds.
#[verifier::ext_equal]
pub ghost struct VisitView {
    pub country: Seq<char>,
    pub start: Timestamp,
    pub end: Option<Timestamp>,
}

impl View for Visit {
    type V = VisitView;

    open spec fn view(&self) -> VisitView {
        VisitView { country: self.country@, start: self.start, end: self.end }
    }
}

impl DeepView for Visit {
    type V = VisitView;

    open spec fn deep_view(&self) -> VisitView {
        self.view()
    }
}

impl VisitView {
    /// Timestamps are in range and a closed visit ends no earlier than it starts.
    pub open spec fn wf(self) -> bool {
        &&& self.start.wf()
        &&& match self.end {
            Some(e) => e.wf() && self.start.secs <= e.secs,
            None => true,
        }
    }
}

impl Visit {
    pub open spec fn wf(self) -> bool {
        self@.wf()
    }

    pub fn new(country: String, start: Timestamp, end: Option<Timestamp>) -> (r: Visit)
        ensures
            r@.country == country@,
            r@.start == start,
            r@.end == end,
    {
        Visit { country, start, end }
    }

    /// The day the visit began, formatted as `%d %b %Y`.
    pub fn start_to_string(&self) -> (r: String)
        requires
            self.start.wf(),
        ensures
            r@ == day_label_of(self.start.secs as int),
    {
        format_day(self.start.secs)
    }

    /// The day the visit ended, formatted as `%d %b %Y`; empty while the
    /// visit is still open.
    pub fn end_to_string(&self) -> (r: String)
        requires
            self.wf(),
        ensures
            match self.end {
                Some(e) => r@ == day_label_of(e.secs as int),
                None => r@ == Seq::<char>::empty(),
            },
    {
        match self.end {
            Some(e) => format_day(e.secs),
            None => String::new(),
        }
    }

    /// A copy that is equal, as a value, to the original.
    pub fn duplicate(&self) -> (r: Visit)
        ensures
            r@ == self@,
    {
        Visit { country: self.country.clone(), start: self.start, end: self.end }
    }
}

/// A ledger: the ordered sequence of visits one segmentation run produced.
pub type Visits = Vec<Visit>;


impl PartialEq for Visit {
    /// Day-precision equality: same country, starting on the same calendar
    /// day, and ending on the same calendar day (or both still open).
    fn eq(&self, other: &Visit) -> (r: bool) {
        self.country == other.country && self.start.day() == other.start.day() && (match (
            self.end,
            other.end,
        ) {
            (Some(x), Some(y)) => x.day() == y.day(),
            (None, None) => true,
            _ => false,
        })
    }
}

impl vstd::std_specs::cmp::PartialEqSpecImpl for Visit {
    open spec fn obeys_eq_spec() -> bool {
        true
    }

    open spec fn eq_spec(&self, other: &Visit) -> bool {
        &&& self.country@ == other.country@
        &&& self.start.spec_day() == other.start.spec_day()
        &&& match (self.end, other.end) {
            (Some(x), Some(y)) => x.spec_day() == y.spec_day(),
            (None, None) => true,
            _ => false,
        }
    }
}

impl Eq for Visit {

}

impl PartialOrd for Visit {
    /// Country name first (byte-lexicographic), then start day.
    fn partial_cmp(&self, other: &Visit) -> (r: Option<Ordering>) {
        if self.country == other.country {
            let d1 = self.start.day();
            let d2 = other.start.day();
            if d1 < d2 {
                Some(Ordering::Less)
            } else if d1 > d2 {
                Some(Ordering::Greater)
            } else {
                Some(Ordering::Equal)
            }
        } else {
            if str_lt(&self.country, &other.country) {
                Some(Ordering::Less)
            } else {
                Some(Ordering::Greater)
            }
        }
    }
}

impl vstd::std_specs::cmp::PartialOrdSpecImpl for Visit {
    open spec fn obeys_partial_cmp_spec() -> bool {
        true
    }

    open spec fn partial_cmp_spec(&self, other: &Visit) -> Option<Ordering> {
        if self.country@ == other.country@ {
            if self.start.spec_day() < other.start.spec_day() {
                Some(Ordering::Less)
            } else if self.start.spec_day() > other.start.spec_day() {
                Some(Ordering::Greater)
            } else {
                Some(Ordering::Equal)
            }
        } else if key_lt(self.country@, other.country@) {
            Some(Ordering::Less)
        } else {
            Some(Ordering::Greater)
        }
    }
}

} // verus!
