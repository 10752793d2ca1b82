//! Points in time, as file systems record them for the last change of a file.

use vstd::prelude::*;

verus! {

/// Nanoseconds in a second.
pub const NANOS_PER_SEC: i128 = 1_000_000_000;

/// A point in time: nanoseconds since the Unix epoch, negative before it.
#[derive(Clone, Copy, Debug, PartialEq, Eq, PartialOrd, Ord, Hash, Structural)]
pub struct Timestamp {
    pub nanos: i128,
}

impl Timestamp {
    /// The point `secs` whole seconds after the epoch.
    pub fn from_secs(secs: u64) -> (t: Timestamp)
        ensures
            t.nanos == secs * 1_000_000_000,
    {
        Timestamp { nanos: (secs as i128) * NANOS_PER_SEC }
    }

    /// The point `secs` seconds and `subsec_nanos` nanoseconds from the epoch.
    pub fn new(secs: i64, subsec_nanos: u32) -> (t: Timestamp)
        ensures
            t.nanos == secs * 1_000_000_000 + subsec_nanos,
    {
        Timestamp { nanos: (secs as i128) * NANOS_PER_SEC + (subsec_nanos as i128) }
    }

    /// Whole seconds since the epoch, for a point that is not before it.
    pub fn epoch_secs(&self) -> (secs: Option<u64>)
        ensures
            secs is Some == (0 <= self.nanos / 1_000_000_000 <= u64::MAX && self.nanos >= 0),
            secs matches Some(s) ==> s == self.nanos / 1_000_000_000,
    {
        if self.nanos < 0 {
            None
        } else {
            let s: i128 = self.nanos / NANOS_PER_SEC;
            if s <= 0xffff_ffff_ffff_ffff {
                Some(s as u64)
            } else {
                None
            }
        }
    }

    /// Whether this point is before `other`.
    pub fn before(&self, other: &Timestamp) -> (b: bool)
        ensures
            b == (self.nanos < other.nanos),
    {
        self.nanos < other.nanos
    }
}

/// The later of two points in time that may each be unknown: the later one
/// where both are known, else the one that is.
pub open spec fn latest(a: Option<Timestamp>, b: Option<Timestamp>) -> Option<Timestamp> {
    match (a, b) {
        (Some(x), Some(y)) => if x.nanos < y.nanos {
            Some(y)
        } else {
            Some(x)
        },
        (Some(x), None) => Some(x),
        (None, y) => y,
    }
}

/// The later of two points in time that may each be unknown.
pub fn later(a: Option<Timestamp>, b: Option<Timestamp>) -> (r: Option<Timestamp>)
    ensures
        r == latest(a, b),
{
    match (a, b) {
        (Some(x), Some(y)) => if x.nanos < y.nanos {
            Some(y)
        } else {
            Some(x)
        },
        (Some(x), None) => Some(x),
        (None, y) => y,
    }
}

/// The order in which points in time are merged does not matter.
pub proof fn lemma_latest_commutes(a: Option<Timestamp>, b: Option<Timestamp>)
    ensures
        latest(a, b) == latest(b, a),
{
}

/// Merging points in time may be grouped at will.
pub proof fn lemma_latest_associates(
    a: Option<Timestamp>,
    b: Option<Timestamp>,
    c: Option<Timestamp>,
)
    ensures
        latest(latest(a, b), c) == latest(a, latest(b, c)),
{
}

} // verus!
