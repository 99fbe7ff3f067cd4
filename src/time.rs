use vstd::prelude::*;

verus! {

/// Nanoseconds in one second.
pub const NANOS_PER_SEC: i128 = 1_000_000_000;

/// The largest number of whole seconds a threshold may span, in either direction
/// (`i64::MAX` milliseconds, rounded down to whole seconds).
pub const MAX_SPAN_SECS: i64 = 9_223_372_036_854_775;

/// A point in time: seconds since the Unix epoch plus a sub-second part.
#[derive(Clone, Copy, Debug, PartialEq, Eq)]
pub struct Timestamp {
    pub secs: i64,
    pub nanos: u32,
}

/// A signed span of time: whole seconds plus a sub-second part.
#[derive(Clone, Copy, Debug, PartialEq, Eq)]
pub struct Span {
    pub secs: i64,
    pub nanos: u32,
}

impl Timestamp {
    /// The instant as a number of nanoseconds since the epoch.
    pub open spec fn total(self) -> int {
        self.secs * NANOS_PER_SEC + self.nanos
    }

    pub fn new(secs: i64, nanos: u32) -> (r: Timestamp)
        ensures
            r == (Timestamp { secs, nanos }),
    {
        Timestamp { secs, nanos }
    }

    /// The instant as a number of nanoseconds since the epoch.
    pub fn total_nanos(&self) -> (r: i128)
        ensures
            r == self.total(),
    {
        self.secs as i128 * NANOS_PER_SEC + self.nanos as i128
    }
}

impl Span {
    /// The span as a number of nanoseconds.
    pub open spec fn total(self) -> int {
        self.secs * NANOS_PER_SEC + self.nanos
    }

    pub fn from_secs(secs: i64) -> (r: Span)
        ensures
            r == (Span { secs, nanos: 0 }),
            r.total() == secs * NANOS_PER_SEC,
    {
        Span { secs, nanos: 0 }
    }

    /// The span as a number of nanoseconds.
    pub fn total_nanos(&self) -> (r: i128)
        ensures
            r == self.total(),
    {
        self.secs as i128 * NANOS_PER_SEC + self.nanos as i128
    }
}

/// Whether `now - then` is strictly longer than `limit`.
pub open spec fn older_than(now: Timestamp, then: Timestamp, limit: Span) -> bool {
    now.total() - then.total() > limit.total()
}

/// Whether the age of `then`, seen from `now`, exceeds `limit`.
pub fn is_older_than(now: &Timestamp, then: &Timestamp, limit: &Span) -> (r: bool)
    ensures
        r == older_than(*now, *then, *limit),
{
    now.total_nanos() - then.total_nanos() > limit.total_nanos()
}

/// A retention threshold as written in a configuration: each unit is optional
/// and counts as zero when absent.
#[derive(Clone, Copy, Debug, PartialEq, Eq)]
pub struct Duration {
    pub weeks: Option<i64>,
    pub days: Option<i64>,
    pub hours: Option<i64>,
    pub minutes: Option<i64>,
    pub seconds: Option<i64>,
}

pub open spec fn or_zero(x: Option<i64>) -> int {
    match x {
        Some(v) => v as int,
        None => 0,
    }
}

pub open spec fn span_fits(secs: int) -> bool {
    -MAX_SPAN_SECS <= secs <= MAX_SPAN_SECS
}

impl Duration {
    /// The seconds contributed by each unit, in the order they are summed.
    pub open spec fn parts(self) -> Seq<int> {
        seq![
            or_zero(self.seconds),
            or_zero(self.minutes) * 60,
            or_zero(self.hours) * 3600,
            or_zero(self.days) * 86400,
            or_zero(self.weeks) * 604800,
        ]
    }

    /// Sum of the first `k` parts.
    pub open spec fn partial_sum(self, k: int) -> int
        decreases k,
    {
        if k <= 0 {
            0
        } else {
            self.partial_sum(k - 1) + self.parts()[k - 1]
        }
    }

    /// Total length in seconds.
    pub open spec fn total_secs(self) -> int {
        self.partial_sum(5)
    }

    /// Every part, and every running sum of the parts, is a representable span.
    pub open spec fn representable(self) -> bool {
        forall|k: int| 0 <= k < 5 ==> span_fits(#[trigger] self.parts()[k]) && span_fits(
            self.partial_sum(k + 1),
        )
    }

    /// The threshold this configuration describes, or `None` when a unit or a
    /// running sum leaves the representable range of a span.
    pub fn to_span(&self) -> (r: Option<Span>)
        ensures
            r is Some <==> self.representable(),
            r is Some ==> r->0 == Span::from_secs_spec(self.total_secs()),
    {
        let factors: [i64; 5] = [1, 60, 3600, 86400, 604800];
        let units: [Option<i64>; 5] = [self.seconds, self.minutes, self.hours, self.days, self.weeks];
        let mut sum: i64 = 0;
        let mut i: usize = 0;
        while i < 5
            invariant
                0 <= i <= 5,
                factors@ == seq![1i64, 60, 3600, 86400, 604800],
                units@ == seq![self.seconds, self.minutes, self.hours, self.days, self.weeks],
                sum == self.partial_sum(i as int),
                forall|k: int| 0 <= k < i ==> span_fits(#[trigger] self.parts()[k]) && span_fits(
                    self.partial_sum(k + 1),
                ),
            decreases 5 - i,
        {
            let unit: i64 = match units[i] {
                Some(v) => v,
                None => 0,
            };
            assert(self.parts()[i as int] == unit * factors@[i as int]) by {
                assert(unit == or_zero(units@[i as int]));
                if i == 0 {
                } else if i == 1 {
                } else if i == 2 {
                } else if i == 3 {
                } else {
                }
            }
            let part: i64 = match unit.checked_mul(factors[i]) {
                Some(p) => p,
                None => {
                    return None;
                },
            };
            if part < -MAX_SPAN_SECS || part > MAX_SPAN_SECS {
                return None;
            }
            let next: i64 = sum + part;
            if next < -MAX_SPAN_SECS || next > MAX_SPAN_SECS {
                return None;
            }
            sum = next;
            i = i + 1;
        }
        Some(Span::from_secs(sum))
    }
}

impl Span {
    pub open spec fn from_secs_spec(secs: int) -> Span {
        Span { secs: secs as i64, nanos: 0 }
    }
}

} // verus!
