//! The state of CUBIC and how each event changes it.

use crate::cube_root::cube_root_value;
use crate::time::Instant;
use crate::value::Value;
use vstd::prelude::*;

verus! {

/// The factor by which a loss cuts the window: seven tenths.
pub open spec fn beta() -> Value {
    Value::ratio(7, 10)
}

/// The pace at which the window grows, in segments per second cubed: four tenths.
pub open spec fn pace() -> Value {
    Value::ratio(4, 10)
}

/// The pace in bytes per second cubed, for segments of `min_cwnd` bytes.
pub open spec fn pace_in_bytes(min_cwnd: nat) -> Value {
    pace().times(Value::whole(min_cwnd))
}

/// How many seconds after a loss the window is back at `w_max`:
/// `K = (w_max * (1 - beta) / C)^(1/3)`.
pub open spec fn plateau_time(w_max: nat, min_cwnd: nat) -> Option<Value> {
    cube_root_value(
        Value::whole(w_max).times(Value::whole(1).minus(beta())).over(pace_in_bytes(min_cwnd)),
    )
}

/// The window that the cubic curve gives, `millis` milliseconds after a loss:
/// `C * (t - K)^3 + w_max`.
pub open spec fn curve(w_max: nat, min_cwnd: nat, k: Value, millis: nat) -> Value {
    let s = Value::whole(millis).over(Value::whole(1000)).minus(k);
    pace_in_bytes(min_cwnd).times(s.times(s).times(s)).plus(Value::whole(w_max))
}

/// The window that a loss is to leave: `beta` times the window.
pub open spec fn cut(cwnd: nat) -> nat {
    Value::whole(cwnd).times(beta()).truncated(usize::MAX as nat)
}

/// The plateau that a loss below the last one leaves: `(1 + beta) / 2` times the window.
pub open spec fn lowered_plateau(cwnd: nat) -> nat {
    Value::whole(cwnd).times(Value::whole(1).plus(beta())).over(Value::whole(2)).truncated(
        usize::MAX as nat,
    )
}

/// The lesser of two sizes.
pub open spec fn min(a: nat, b: nat) -> nat {
    if a < b {
        a
    } else {
        b
    }
}

/// The greater of two sizes.
pub open spec fn max(a: nat, b: nat) -> nat {
    if a < b {
        b
    } else {
        a
    }
}

/// The state of CUBIC.
pub struct State {
    pub w_max: nat,
    pub cwnd: nat,
    pub min_cwnd: nat,
    pub ssthresh: nat,
    pub rwnd: nat,
    pub recovery_start: Option<Instant>,
    pub in_fast_recovery: bool,
}

impl State {
    /// The state of a new connection.
    pub open spec fn initial() -> State {
        State {
            w_max: 2048,
            cwnd: 2048,
            min_cwnd: 2048,
            ssthresh: usize::MAX as nat,
            rwnd: 65536,
            recovery_start: None,
            in_fast_recovery: false,
        }
    }

    /// Whether the next acknowledgement is one of congestion avoidance.
    pub open spec fn avoiding(self) -> bool {
        !self.in_fast_recovery && self.ssthresh <= self.cwnd
    }

    /// The window grown by `len` bytes, to the remote window at most, but never below a segment.
    pub open spec fn grown(self, len: nat) -> nat {
        max(min(self.cwnd + len, self.rwnd), self.min_cwnd)
    }

    /// The state after new data was acknowledged.
    pub open spec fn acked(self, now: Instant, len: nat) -> State {
        if self.in_fast_recovery {
            State { in_fast_recovery: false, cwnd: self.ssthresh, ..self }
        } else if self.cwnd < self.ssthresh {
            State { cwnd: self.grown(min(len, self.min_cwnd)), ..self }
        } else {
            let elapsed = now.millis() - self.recovery_start->0.millis();
            match plateau_time(self.w_max, self.min_cwnd) {
                Some(k) if elapsed >= 0 => {
                    let target = curve(self.w_max, self.min_cwnd, k, elapsed as nat).truncated(
                        usize::MAX as nat,
                    );
                    State { cwnd: min(max(target, self.min_cwnd), self.rwnd), ..self }
                },
                _ => self,
            }
        }
    }

    /// The state after a duplicate acknowledgement.
    pub open spec fn dup_acked(self, len: nat) -> State {
        if self.in_fast_recovery {
            State { cwnd: self.grown(len), ..self }
        } else {
            self
        }
    }

    /// The state after a loss that duplicate acknowledgements have shown.
    pub open spec fn lost(self, now: Instant) -> State {
        if self.in_fast_recovery {
            self
        } else {
            let ssthresh = max(cut(self.cwnd), 2 * self.min_cwnd);
            State {
                w_max: if self.cwnd < self.w_max {
                    lowered_plateau(self.cwnd)
                } else {
                    self.cwnd
                },
                ssthresh,
                cwnd: min(ssthresh + 3 * self.min_cwnd, self.rwnd),
                recovery_start: Some(now),
                in_fast_recovery: true,
                ..self
            }
        }
    }

    /// The state after the retransmission timer has run out.
    pub open spec fn timed_out(self, now: Instant, in_flight: nat) -> State {
        State {
            w_max: self.cwnd,
            ssthresh: max(in_flight / 2, 2 * self.min_cwnd),
            cwnd: self.min_cwnd,
            recovery_start: Some(now),
            in_fast_recovery: false,
            ..self
        }
    }

    /// Whether the sizes are those of a machine.
    pub open spec fn fits(self) -> bool {
        &&& self.w_max <= usize::MAX
        &&& self.cwnd <= usize::MAX
        &&& self.min_cwnd <= usize::MAX
        &&& self.ssthresh <= usize::MAX
        &&& self.rwnd <= usize::MAX
    }

    /// Whether a state without a loss is one of slow start without a threshold.
    pub open spec fn well_formed(self) -> bool {
        self.recovery_start is None ==> !self.in_fast_recovery && self.ssthresh == usize::MAX
    }

    /// Whether the window lies between a segment and the remote window, both the remote window and
    /// the threshold leave room for two segments, and fast recovery ends within the remote window.
    pub open spec fn in_bounds(self) -> bool {
        &&& 0 < self.min_cwnd <= self.cwnd <= self.rwnd
        &&& 2 * self.min_cwnd <= self.rwnd
        &&& 2 * self.min_cwnd <= self.ssthresh
        &&& self.in_fast_recovery ==> self.ssthresh <= self.rwnd
    }
}

} // verus!
