//! Points in time.

use vstd::prelude::*;

verus! {

/// A point in time, in microseconds from an arbitrary one.
#[derive(Clone, Copy, Debug, PartialEq, Eq, Structural)]
pub struct Instant {
    micros: i64,
}

impl View for Instant {
    type V = int;

    /// The number of microseconds.
    closed spec fn view(&self) -> int {
        self.micros as int
    }
}

impl Instant {
    /// The point in time that lies `millis` milliseconds from the arbitrary one.
    pub fn from_millis(millis: i64) -> (instant: Instant)
        requires
            i64::MIN <= millis * 1000 <= i64::MAX,
        ensures
            instant@ == millis * 1000,
    {
        Instant { micros: millis * 1000 }
    }

    /// The number of whole milliseconds, rounded toward zero.
    pub open spec fn millis(self) -> int {
        if self@ >= 0 {
            self@ / 1000
        } else {
            -((-self@) / 1000)
        }
    }

    /// A number of whole milliseconds is within one of the time, on the side of zero, and a later
    /// time has no fewer.
    pub proof fn law_millis_round_toward_zero(self, later: Instant)
        ensures
            self@ >= 0 ==> 0 <= 1000 * self.millis() <= self@ < 1000 * self.millis() + 1000,
            self@ <= 0 ==> 1000 * self.millis() - 1000 < self@ <= 1000 * self.millis() <= 0,
            self@ <= later@ ==> self.millis() <= later.millis(),
    {
    }

    /// Milliseconds fit in a machine integer.
    pub(crate) proof fn lemma_millis(self)
        ensures
            i64::MIN / 1000 - 1 <= self.millis() <= i64::MAX / 1000,
    {
    }

    /// The number of whole milliseconds, rounded toward zero.
    pub fn total_millis(&self) -> (millis: i64)
        ensures
            millis == self.millis(),
            i64::MIN / 1000 - 1 <= millis <= i64::MAX / 1000,
    {
        self.micros / 1000
    }
}

} // verus!
