//! Half-open time intervals tagged with the identifier of the schedule that
//! occupies them, and the total order the interval index keeps them in.

use vstd::prelude::*;

verus! {

/// An instant in UTC, counted in nanoseconds since the Unix epoch.
pub type Timestamp = i128;

/// The 128-bit identifier of a schedule.
pub type ScheduleId = u128;

/// The sort key of an interval: `(start, stop, val)`, compared
/// lexicographically.
pub type IntervalKey = (Timestamp, Timestamp, ScheduleId);

/// Builds a timestamp from whole seconds since the epoch and the nanoseconds
/// elapsed within that second.
pub fn timestamp_from_parts(secs: i64, nanos: u32) -> (t: Timestamp)
    ensures
        t == secs * 1_000_000_000 + nanos,
{
    let s: i128 = secs as i128;
    let n: i128 = nanos as i128;
    s * 1_000_000_000 + n
}

/// The whole seconds since the epoch and the nanoseconds within that second
/// that make up `t`; `None` where the seconds do not fit in 64 bits. The
/// nanoseconds lie below one second, also for instants before the epoch.
pub fn timestamp_to_parts(t: Timestamp) -> (parts: Option<(i64, u32)>)
    ensures
        match parts {
            Some((secs, nanos)) => nanos < 1_000_000_000 && t == secs * 1_000_000_000 + nanos,
            None => t < i64::MIN * 1_000_000_000 || t >= (i64::MAX + 1) * 1_000_000_000,
        },
{
    let lowest: i128 = -9_223_372_036_854_775_808_000_000_000;
    let beyond: i128 = 9_223_372_036_854_775_808_000_000_000;
    if t < lowest || t >= beyond {
        return None;
    }
    let mut secs: i128 = t / 1_000_000_000;
    let mut nanos: i128 = t % 1_000_000_000;
    if nanos < 0 {
        nanos = nanos + 1_000_000_000;
        secs = secs - 1;
    }
    Some((secs as i64, nanos as u32))
}

/// A half-open range `[start, stop)` owned by the schedule `val`.
#[derive(PartialEq, Eq, Structural, PartialOrd, Ord, Hash, Debug, Clone, Copy)]
pub struct Interval {
    pub start: Timestamp,
    pub stop: Timestamp,
    pub val: ScheduleId,
}

/// The strict lexicographic order on `(start, stop, val)`.
pub open spec fn key_lt(a: Interval, b: Interval) -> bool {
    a.start < b.start || (a.start == b.start && (a.stop < b.stop || (a.stop == b.stop && a.val
        < b.val)))
}

/// The interval a sort key stands for.
pub open spec fn interval_of(k: IntervalKey) -> Interval {
    Interval { start: k.0, stop: k.1, val: k.2 }
}

/// A sequence whose neighbours, and so all its pairs, ascend strictly in the
/// key order.
pub open spec fn ascending(s: Seq<Interval>) -> bool {
    forall|i: int, j: int| 0 <= i < j < s.len() ==> key_lt(s[i], s[j])
}

impl Interval {
    /// Whether this interval shares an instant with the range `[start, stop)`.
    pub open spec fn overlaps(self, start: Timestamp, stop: Timestamp) -> bool {
        self.start < stop && self.stop > start
    }

    /// The sort key `(start, stop, val)`.
    pub open spec fn spec_key(&self) -> IntervalKey {
        (self.start, self.stop, self.val)
    }

    /// Creates an interval, rejecting a range that is empty or reversed.
    pub fn new(start: Timestamp, stop: Timestamp, val: ScheduleId) -> (r: Result<Interval, String>)
        ensures
            start < stop ==> r == Ok::<Interval, String>(Interval { start, stop, val }),
            start >= stop ==> r is Err && r->Err_0@ == "Interval start must be before stop"@,
    {
        if start >= stop {
            return Err("Interval start must be before stop".to_string());
        }
        Ok(Interval { start, stop, val })
    }

    /// Whether this interval shares an instant with the range
    /// `[start, stop)`: it must begin before `stop` and end after `start`.
    pub fn overlap(&self, start: Timestamp, stop: Timestamp) -> (b: bool)
        ensures
            b == self.overlaps(start, stop),
    {
        self.start < stop && self.stop > start
    }

    /// Whether this interval sorts strictly before `other`.
    pub fn precedes(&self, other: &Interval) -> (b: bool)
        ensures
            b == key_lt(*self, *other),
    {
        self.start < other.start || (self.start == other.start && (self.stop < other.stop || (
        self.stop == other.stop && self.val < other.val)))
    }

    /// The sort key `(start, stop, val)`.
    #[verifier::when_used_as_spec(spec_key)]
    pub fn key(&self) -> (k: IntervalKey)
        ensures
            k == self.spec_key(),
    {
        (self.start, self.stop, self.val)
    }

    /// The interval that `key` stands for.
    pub fn from_key(key: &IntervalKey) -> (iv: Interval)
        ensures
            iv == interval_of(*key),
    {
        Interval { start: key.0, stop: key.1, val: key.2 }
    }
}

/// The key order is transitive.
pub proof fn lemma_key_lt_transitive(a: Interval, b: Interval, c: Interval)
    requires
        key_lt(a, b),
        key_lt(b, c),
    ensures
        key_lt(a, c),
{
}

/// Of two different intervals exactly one sorts before the other, and no
/// interval sorts before itself.
pub proof fn lemma_key_lt_total(a: Interval, b: Interval)
    ensures
        a == b || key_lt(a, b) || key_lt(b, a),
        !(key_lt(a, b) && key_lt(b, a)),
        !key_lt(a, a),
{
}

} // verus!
