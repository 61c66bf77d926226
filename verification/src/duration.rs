//! Lengths of time, and the clock they are measured with.
use std::time::Instant;
use vstd::prelude::*;

verus! {

/// A length of time, to the nanosecond.
#[derive(Clone, Copy, Debug, PartialEq, Eq, PartialOrd, Ord, Structural)]
pub struct Duration {
    nanos: u128,
}

impl View for Duration {
    type V = nat;

    /// The number of nanoseconds.
    closed spec fn view(&self) -> nat {
        self.nanos as nat
    }
}

/// The number of nanoseconds in `ms` milliseconds.
pub open spec fn millis(ms: int) -> nat {
    (ms * 1_000_000) as nat
}

/// Whether a [`std::time::Duration`] holds a number of nanoseconds: its whole seconds fit in a
/// `u64`.
pub open spec fn measurable(nanos: nat) -> bool {
    nanos / 1_000_000_000 <= u64::MAX
}

/// Two lengths of time with the same number of nanoseconds are the same.
pub proof fn same_nanos(a: Duration, b: Duration)
    requires
        a@ == b@,
    ensures
        a == b,
{
}

impl Duration {
    /// A whole number of nanoseconds.
    pub fn from_nanos(nanos: u128) -> (r: Self)
        ensures
            r@ == nanos,
    {
        Duration { nanos }
    }

    /// A whole number of milliseconds.
    pub fn from_millis(ms: u64) -> (r: Self)
        ensures
            r@ == millis(ms as int),
    {
        Duration { nanos: ms as u128 * 1_000_000 }
    }

    /// The number of nanoseconds.
    pub fn as_nanos(&self) -> (r: u128)
        ensures
            r == self@,
    {
        self.nanos
    }

    /// What is left after `other`, or nothing if `other` is longer.
    pub fn saturating_sub(self, other: Self) -> (r: Self)
        ensures
            r@ == (if self@ >= other@ {
                self@ - other@
            } else {
                0
            }),
    {
        if self.nanos >= other.nanos {
            Duration { nanos: self.nanos - other.nanos }
        } else {
            Duration { nanos: 0 }
        }
    }

    /// Whether this is at least as long as `other`.
    pub fn at_least(self, other: Self) -> (r: bool)
        ensures
            r == (self@ >= other@),
    {
        self.nanos >= other.nanos
    }
}

/// A reading of the monotonic clock; nothing is known of it.
#[verifier::external_type_specification]
#[verifier::external_body]
pub struct ExInstant(std::time::Instant);

/// Reads the clock: [`std::time::Instant::now`]. Nothing is claimed of the reading.
#[verifier::external_body]
pub(crate) fn now() -> Instant {
    Instant::now()
}

/// The time passed since a reading of the clock: [`std::time::Instant::elapsed`], as
/// nanoseconds. It comes as a [`std::time::Duration`], which counts whole seconds in a `u64`.
/// How long it is depends on when it is called, and nothing is claimed of that.
#[verifier::external_body]
pub(crate) fn since(start: &Instant) -> (r: Duration)
    ensures
        measurable(r@),
{
    Duration { nanos: start.elapsed().as_nanos() }
}

} // verus!
