//! Points in time.

use vstd::prelude::*;

verus! {

/// A point in time: milliseconds since the epoch.
#[derive(Clone, Copy, Debug, PartialEq, Eq, Structural)]
pub struct Instant {
    millis: u64,
}

impl Instant {
    /// The milliseconds since the epoch.
    pub closed spec fn at(self) -> u64 {
        self.millis
    }

    /// The point that many milliseconds after the epoch.
    pub fn from_epoch_millis(millis: u64) -> (instant: Instant)
        ensures
            instant.at() == millis,
    {
        Instant { millis }
    }

    /// The milliseconds since the epoch.
    pub fn raw(&self) -> (millis: u64)
        ensures
            millis == self.at(),
    {
        self.millis
    }
}

/// A point in time tells the milliseconds that it was made of.
pub proof fn law_instants_tell_their_milliseconds(millis: u64, instant: Instant, raw: u64)
    requires
        call_ensures(Instant::from_epoch_millis, (millis,), instant),
        call_ensures(Instant::raw, (&instant,), raw),
    ensures
        raw == millis,
{
}

} // verus!
