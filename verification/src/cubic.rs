//! The CUBIC congestion controller.

use crate::binary64::Binary64;
use crate::cube_root::cube_root;
use crate::state::{beta, State};
use crate::time::Instant;
use crate::value::Value;
use vstd::prelude::*;

verus! {

/// The size of a segment until it is known.
pub const DEFAULT_MSS: usize = 1024;

/// What a connection has measured of its round trips. CUBIC grows the window by the clock and
/// reads nothing of it.
#[derive(Clone, Copy, Debug, Default)]
pub struct RttEstimator;

/// The state of the congestion controller. All sizes are in bytes.
#[derive(Debug)]
pub struct Cubic {
    /// The window before the last loss, at which the cubic curve is flat.
    pub w_max: usize,
    /// The congestion window.
    pub cwnd: usize,
    /// The size of a segment, below which the window does not fall.
    pub min_cwnd: usize,
    /// The window at which slow start ends.
    pub ssthresh: usize,
    /// The greatest window that the remote end has offered.
    pub rwnd: usize,
    /// When the last loss was noticed.
    pub recovery_start: Option<Instant>,
    /// Whether the last loss has not been acknowledged yet.
    pub in_fast_recovery: bool,
}

impl View for Cubic {
    type V = State;

    open spec fn view(&self) -> State {
        State {
            w_max: self.w_max as nat,
            cwnd: self.cwnd as nat,
            min_cwnd: self.min_cwnd as nat,
            ssthresh: self.ssthresh as nat,
            rwnd: self.rwnd as nat,
            recovery_start: self.recovery_start,
            in_fast_recovery: self.in_fast_recovery,
        }
    }
}

/// The sizes of a controller are those of a machine.
pub proof fn law_sizes_fit(cubic: Cubic)
    ensures
        cubic@.fits(),
{
}

fn beta_cubic() -> (x: Binary64)
    ensures
        x@ == beta(),
{
    Binary64::ratio(7, 10)
}

fn from_size(n: usize) -> (x: Binary64)
    ensures
        x@ == Value::whole(n as nat),
{
    Binary64::whole(n as u64)
}

impl Cubic {
    /// The controller of a new connection.
    pub fn new() -> (cubic: Cubic)
        ensures
            cubic@ == State::initial(),
            cubic@.well_formed(),
            cubic.w_max == 2 * DEFAULT_MSS,
            cubic.cwnd == 2 * DEFAULT_MSS,
            cubic.min_cwnd == 2 * DEFAULT_MSS,
            cubic.rwnd == 64 * DEFAULT_MSS,
            cubic.ssthresh == usize::MAX,
            cubic.recovery_start is None,
            !cubic.in_fast_recovery,
    {
        Cubic {
            w_max: DEFAULT_MSS * 2,
            cwnd: DEFAULT_MSS * 2,
            min_cwnd: DEFAULT_MSS * 2,
            rwnd: 64 * DEFAULT_MSS,
            ssthresh: usize::MAX,
            recovery_start: None,
            in_fast_recovery: false,
        }
    }

    /// The number of bytes that may be in flight.
    pub fn window(&self) -> (window: usize)
        ensures
            window == self@.cwnd,
    {
        self.cwnd
    }

    /// New data of `len` bytes was acknowledged.
    pub fn on_ack(&mut self, now: Instant, len: usize, _in_flight: usize, _rtt: &RttEstimator)
        requires
            old(self)@.avoiding() ==> old(self)@.recovery_start is Some,
        ensures
            final(self)@ == old(self)@.acked(now, len as nat),
            old(self)@.well_formed() ==> final(self)@.well_formed(),
    {
        if self.in_fast_recovery {
            self.in_fast_recovery = false;
            self.cwnd = self.ssthresh;
            return;
        } else if self.cwnd < self.ssthresh {
            self.cwnd = self.cwnd.saturating_add(len.min(self.min_cwnd)).min(self.rwnd).max(
                self.min_cwnd,
            );
            return;
        }
        let recovery_start = self.recovery_start.unwrap();
        let t: i64 = now.total_millis() - recovery_start.total_millis();
        if t < 0 {
            return;
        }
        let c_bytes = Binary64::ratio(4, 10).times(from_size(self.min_cwnd));
        let k3 = from_size(self.w_max).times(Binary64::whole(1).minus(beta_cubic())).over(c_bytes);
        let k = match cube_root(k3) {
            Some(k) => k,
            None => {
                return;
            },
        };
        let s = Binary64::whole(t as u64).over(Binary64::whole(1000)).minus(k);
        let s = s.times(s).times(s);
        let cwnd = c_bytes.times(s).plus(from_size(self.w_max));
        self.cwnd = cwnd.truncated().max(self.min_cwnd).min(self.rwnd);
    }

    /// An acknowledgement of data of `len` bytes came in again.
    pub fn on_dup_ack(&mut self, _now: Instant, len: usize, _in_flight: usize)
        ensures
            final(self)@ == old(self)@.dup_acked(len as nat),
            old(self)@.well_formed() ==> final(self)@.well_formed(),
    {
        if self.in_fast_recovery {
            self.cwnd = self.cwnd.saturating_add(len).min(self.rwnd).max(self.min_cwnd);
        }
    }

    /// Duplicate acknowledgements have shown that a segment was lost.
    pub fn on_loss(&mut self, now: Instant, _in_flight: usize)
        requires
            !old(self)@.in_fast_recovery ==> 3 * old(self)@.min_cwnd <= usize::MAX,
        ensures
            final(self)@ == old(self)@.lost(now),
            old(self)@.well_formed() ==> final(self)@.well_formed(),
    {
        if !self.in_fast_recovery {
            self.w_max = if self.cwnd < self.w_max {
                from_size(self.cwnd).times(Binary64::whole(1).plus(beta_cubic())).over(
                    Binary64::whole(2),
                ).truncated()
            } else {
                self.cwnd
            };
            self.ssthresh = from_size(self.cwnd).times(beta_cubic()).truncated().max(
                2 * self.min_cwnd,
            );
            self.cwnd = self.ssthresh.saturating_add(3 * self.min_cwnd).min(self.rwnd);
            self.recovery_start = Some(now);
            self.in_fast_recovery = true;
        }
    }

    /// The retransmission timer has run out.
    pub fn on_rto(&mut self, now: Instant, in_flight: usize)
        requires
            2 * old(self)@.min_cwnd <= usize::MAX,
        ensures
            final(self)@ == old(self)@.timed_out(now, in_flight as nat),
            final(self)@.well_formed(),
    {
        assert(in_flight >> 1 == in_flight / 2) by (bit_vector);
        self.w_max = self.cwnd;
        self.ssthresh = (in_flight >> 1).max(2 * self.min_cwnd);
        self.cwnd = self.min_cwnd;
        self.recovery_start = Some(now);
        self.in_fast_recovery = false;
    }

    /// A segment has `mss` bytes.
    pub fn set_mss(&mut self, mss: usize)
        ensures
            final(self)@ == (State { min_cwnd: mss as nat, ..old(self)@ }),
            old(self)@.well_formed() ==> final(self)@.well_formed(),
    {
        self.min_cwnd = mss;
    }

    /// The remote end offers a window of `remote_window` bytes.
    pub fn set_remote_window(&mut self, remote_window: usize)
        ensures
            final(self)@ == (State {
                rwnd: crate::state::max(old(self)@.rwnd, remote_window as nat),
                ..old(self)@
            }),
            remote_window <= old(self).rwnd ==> final(self)@ == old(self)@,
            old(self).rwnd < remote_window ==> final(self)@ == (State {
                rwnd: remote_window as nat,
                ..old(self)@
            }),
            old(self)@.well_formed() ==> final(self)@.well_formed(),
    {
        if self.rwnd < remote_window {
            self.rwnd = remote_window;
        }
    }
}

} // verus!
