//! What holds of the controller across events.

use crate::bounds::lemma_plateau_between;
use crate::growth::{
    law_curve_meets_plateau, law_curve_never_falls, lemma_empty_segments, lemma_seconds, seconds,
};
use crate::loss::{
    law_cut_is_seven_tenths, law_cut_near_seven_tenths, law_cut_of_tens, law_cut_shrinks,
    law_lowered_plateau_near_seventeen_twentieths, law_lowered_plateau_rounds_down,
    law_lowered_plateau_shrinks, EXACT_WINDOW,
};
use crate::order::{lemma_span_order, lemma_whole_exact, span};
use crate::plateau::{law_curve_starts_at_cut, law_plateau_time_accurate};
use crate::root::cubed;
use crate::rounding::{lemma_divides, SIGNIFICAND_END};
use crate::shape::{
    grown_a_byte, law_curve_approaches_plateau, law_curve_gives_whole_part, law_curve_grows_slowly,
    law_curve_leaves_start, past, slope_bound, tenfold_cubic, tenfold_curve, tenfold_size,
};
use crate::state::{curve, cut, max, min, plateau_time, State};
use crate::time::Instant;
use crate::value::Value;
use vstd::arithmetic::power2::{lemma2_to64, pow2};
use vstd::math::abs;
use vstd::prelude::*;

verus! {

/// Congestion avoidance follows a loss: until there was one, the state is one of slow start,
/// unless the window is as great as a size can be.
pub proof fn law_avoidance_follows_loss(s: State)
    requires
        s.well_formed(),
        s.cwnd < usize::MAX,
        s.recovery_start is None,
    ensures
        !s.avoiding(),
        s.cwnd < s.ssthresh,
{
}

/// A new connection has a window of two segments of 1024 bytes, which also count as the segment and
/// as the plateau, a remote window of sixty-four, no threshold, and has seen no loss.
pub proof fn law_new_connection()
    ensures
        State::initial().cwnd == 2 * 1024,
        State::initial().min_cwnd == 2 * 1024,
        State::initial().w_max == 2 * 1024,
        State::initial().rwnd == 64 * 1024,
        State::initial().ssthresh == usize::MAX,
        State::initial().recovery_start is None,
        !State::initial().in_fast_recovery,
{
}

/// Every event keeps a state well formed, and a loss is not forgotten.
pub proof fn law_events_keep_well_formed(s: State, now: Instant, len: nat, in_flight: nat)
    requires
        s.well_formed(),
    ensures
        State::initial().well_formed(),
        s.acked(now, len).well_formed(),
        s.dup_acked(len).well_formed(),
        s.lost(now).well_formed(),
        s.timed_out(now, in_flight).well_formed(),
        s.recovery_start is Some ==> {
            &&& s.acked(now, len).recovery_start == s.recovery_start
            &&& s.dup_acked(len).recovery_start == s.recovery_start
            &&& s.lost(now).recovery_start is Some
            &&& s.timed_out(now, in_flight).recovery_start is Some
        },
{
}

/// The window stays between a segment and the remote window: a new connection is in bounds, and
/// every event keeps a state in bounds, and its sizes those of a machine.
pub proof fn law_events_keep_bounds(s: State, now: Instant, len: nat, in_flight: nat)
    requires
        s.fits(),
        s.in_bounds(),
        in_flight <= usize::MAX,
    ensures
        State::initial().in_bounds() && State::initial().fits(),
        s.acked(now, len).in_bounds() && s.acked(now, len).fits(),
        s.dup_acked(len).in_bounds() && s.dup_acked(len).fits(),
        s.lost(now).in_bounds() && s.lost(now).fits(),
        s.timed_out(now, in_flight).in_bounds() && s.timed_out(now, in_flight).fits(),
{
    law_cut_shrinks(s.cwnd);
    law_lowered_plateau_shrinks(s.cwnd);
}

/// A wider remote window and a smaller segment keep a state in bounds.
pub proof fn law_settings_keep_bounds(s: State, rwnd: nat, mss: nat)
    requires
        s.in_bounds(),
    ensures
        (State { rwnd: max(s.rwnd, rwnd), ..s }).in_bounds(),
        0 < mss <= s.min_cwnd ==> (State { min_cwnd: mss, ..s }).in_bounds(),
{
}

/// Only the settings change the size of a segment and the remote window.
pub proof fn law_events_keep_settings(s: State, now: Instant, len: nat, in_flight: nat)
    ensures
        s.acked(now, len).min_cwnd == s.min_cwnd,
        s.acked(now, len).rwnd == s.rwnd,
        s.dup_acked(len).min_cwnd == s.min_cwnd,
        s.dup_acked(len).rwnd == s.rwnd,
        s.lost(now).min_cwnd == s.min_cwnd,
        s.lost(now).rwnd == s.rwnd,
        s.timed_out(now, in_flight).min_cwnd == s.min_cwnd,
        s.timed_out(now, in_flight).rwnd == s.rwnd,
{
}

/// Only losses and timeouts move the plateau and the threshold.
pub proof fn law_acks_keep_plateau(s: State, now: Instant, len: nat)
    ensures
        s.acked(now, len).w_max == s.w_max,
        s.acked(now, len).ssthresh == s.ssthresh,
        s.dup_acked(len).w_max == s.w_max,
        s.dup_acked(len).ssthresh == s.ssthresh,
{
}

/// Duplicate acknowledgements change nothing outside of fast recovery.
pub proof fn law_dup_ack_before_loss(s: State, len: nat)
    requires
        !s.in_fast_recovery,
    ensures
        s.dup_acked(len) == s,
{
}

/// In fast recovery, each duplicate acknowledgement grows the window by its length, as far as the
/// remote window allows.
pub proof fn law_dup_ack_grows(s: State, len: nat)
    requires
        s.in_fast_recovery,
        s.min_cwnd <= s.cwnd + len <= s.rwnd,
    ensures
        s.dup_acked(len) == (State { cwnd: s.cwnd + len, ..s }),
{
}

/// In fast recovery, a duplicate acknowledgement brings the window to the remote window if its
/// length would take it beyond, keeps it at a segment at least, and changes nothing else. So it
/// never shrinks a window that is within the remote window.
pub proof fn law_dup_ack_is_capped(s: State, len: nat)
    requires
        s.in_fast_recovery,
    ensures
        s.min_cwnd <= s.cwnd + len <= s.rwnd ==> s.dup_acked(len).cwnd == s.cwnd + len,
        s.min_cwnd <= s.rwnd < s.cwnd + len ==> s.dup_acked(len).cwnd == s.rwnd,
        s.cwnd + len < s.min_cwnd ==> s.dup_acked(len).cwnd == s.min_cwnd,
        s.rwnd < s.min_cwnd ==> s.dup_acked(len).cwnd == s.min_cwnd,
        s.cwnd <= s.rwnd ==> s.cwnd <= s.dup_acked(len).cwnd,
        s.dup_acked(len).in_fast_recovery,
        s.dup_acked(len).w_max == s.w_max,
        s.dup_acked(len).min_cwnd == s.min_cwnd,
        s.dup_acked(len).ssthresh == s.ssthresh,
        s.dup_acked(len).rwnd == s.rwnd,
        s.dup_acked(len).recovery_start == s.recovery_start,
{
}

/// A loss during fast recovery changes nothing, whatever led to it.
pub proof fn law_loss_during_recovery(s: State, now: Instant)
    requires
        s.in_fast_recovery,
    ensures
        s.lost(now) == s,
{
}

/// A further loss during fast recovery changes nothing, however many acknowledgements were
/// repeated in between.
pub proof fn law_loss_counts_once(s: State, first: Instant, second: Instant, lens: Seq<nat>)
    ensures
        s.lost(first).lost(second) == s.lost(first),
        repeated(s.lost(first), lens).lost(second) == repeated(s.lost(first), lens),
{
    lemma_repeated(s.lost(first), lens);
}

/// The state after a number of duplicate acknowledgements.
pub open spec fn repeated(s: State, lens: Seq<nat>) -> State
    decreases lens.len(),
{
    if lens.len() == 0 {
        s
    } else {
        repeated(s, lens.drop_last()).dup_acked(lens.last())
    }
}

proof fn lemma_repeated(s: State, lens: Seq<nat>)
    ensures
        repeated(s, lens) == (State { cwnd: repeated(s, lens).cwnd, ..s }),
    decreases lens.len(),
{
    if lens.len() > 0 {
        lemma_repeated(s, lens.drop_last());
    }
}

/// The first acknowledgement of new data after a loss ends fast recovery and brings the window to
/// the threshold, however far it was inflated, and the next one is one of congestion avoidance.
pub proof fn law_recovery_ends_at_threshold(
    s: State,
    lost: Instant,
    lens: Seq<nat>,
    now: Instant,
    len: nat,
)
    requires
        !s.in_fast_recovery,
    ensures
        ({
            let ended = repeated(s.lost(lost), lens).acked(now, len);
            &&& !ended.in_fast_recovery
            &&& ended.cwnd == ended.ssthresh
            &&& ended.ssthresh == max(cut(s.cwnd), 2 * s.min_cwnd)
            &&& ended.w_max == s.lost(lost).w_max
            &&& ended.recovery_start == Some(lost)
            &&& ended.avoiding()
        }),
{
    lemma_repeated(s.lost(lost), lens);
}

/// A loss cuts the threshold below the window, but to no less than two segments, and leaves a
/// window of three segments more, as far as the remote window allows.
pub proof fn law_loss_cuts(s: State, now: Instant)
    requires
        s.fits(),
        !s.in_fast_recovery,
    ensures
        s.lost(now).in_fast_recovery,
        s.lost(now).recovery_start == Some(now),
        s.cwnd > 0 ==> cut(s.cwnd) < s.cwnd,
        2 * s.min_cwnd <= s.lost(now).ssthresh,
        2 * s.min_cwnd < s.cwnd ==> s.lost(now).ssthresh < s.cwnd,
        s.cwnd <= 2 * s.min_cwnd ==> s.lost(now).ssthresh == 2 * s.min_cwnd,
        s.lost(now).cwnd <= s.rwnd,
        s.lost(now).ssthresh + 3 * s.min_cwnd <= s.rwnd ==> s.lost(now).cwnd == s.lost(now).ssthresh
            + 3 * s.min_cwnd,
{
    law_cut_shrinks(s.cwnd);
}

/// Fast convergence: a loss below the plateau lowers it, to below the window unless that is empty;
/// a loss at the plateau or above moves it to the window.
pub proof fn law_fast_convergence(s: State, now: Instant)
    requires
        s.fits(),
        !s.in_fast_recovery,
    ensures
        s.cwnd < s.w_max ==> s.lost(now).w_max < s.w_max,
        0 < s.cwnd < s.w_max ==> s.lost(now).w_max < s.cwnd,
        0 == s.cwnd < s.w_max ==> s.lost(now).w_max == 0,
        s.w_max <= s.cwnd ==> s.lost(now).w_max == s.cwnd,
{
    law_lowered_plateau_shrinks(s.cwnd);
}

/// A loss leaves a threshold of seven tenths of the window, or of two segments if those are more,
/// and a window of three segments more than that, or the remote window if that is less.
///
/// The seven tenths are rounded down for windows of up to `2^46` bytes. Where they are a whole
/// number, they may be a byte less, as `law_loss_of_tens` has it. Beyond, they are right within
/// five parts in `2^53` and a byte.
pub proof fn law_loss_leaves_seven_tenths(s: State, now: Instant)
    requires
        s.fits(),
        !s.in_fast_recovery,
    ensures
        ({
            let (window, ssthresh) = (s.cwnd, s.lost(now).ssthresh);
            &&& 2 * s.min_cwnd <= ssthresh
            &&& 2 * s.min_cwnd < ssthresh ==> SIGNIFICAND_END * (10 * ssthresh) <= (SIGNIFICAND_END
                + 5) * (7 * window)
            &&& (SIGNIFICAND_END - 5) * (7 * window) <= SIGNIFICAND_END * (10 * ssthresh + 10)
            &&& window <= EXACT_WINDOW ==> {
                &&& 2 * s.min_cwnd < ssthresh ==> 10 * ssthresh <= 7 * window
                &&& 7 * window <= 10 * ssthresh + 10
                &&& window % 10 != 0 && 20 * s.min_cwnd <= 7 * window ==> ssthresh == (7 * window)
                    / 10
            }
        }),
        s.lost(now).cwnd <= s.rwnd,
        s.lost(now).cwnd <= s.lost(now).ssthresh + 3 * s.min_cwnd,
        s.lost(now).cwnd < s.rwnd ==> s.lost(now).cwnd == s.lost(now).ssthresh + 3 * s.min_cwnd,
        s.lost(now).in_fast_recovery,
        s.lost(now).recovery_start == Some(now),
        s.lost(now).min_cwnd == s.min_cwnd,
        s.lost(now).rwnd == s.rwnd,
{
    law_cut_near_seven_tenths(s.cwnd);
    if s.cwnd <= EXACT_WINDOW {
        law_cut_is_seven_tenths(s.cwnd);
    }
}

/// The threshold after a loss at ten times `j` bytes, to the byte: seven times `j`, or a byte less
/// where the leading digits of that are beyond seven quarters.
pub proof fn law_loss_of_tens(s: State, now: Instant, j: nat, e: nat)
    requires
        s.fits(),
        !s.in_fast_recovery,
        s.cwnd == 10 * j <= EXACT_WINDOW,
        pow2(e) <= 7 * j < 2 * pow2(e),
        2 * s.min_cwnd < 7 * j,
    ensures
        4 * (7 * j) <= 7 * pow2(e) ==> s.lost(now).ssthresh == 7 * j,
        7 * pow2(e) < 4 * (7 * j) ==> s.lost(now).ssthresh == 7 * j - 1,
{
    law_cut_of_tens(j, e);
}

/// Fast convergence, to the byte: a loss below the plateau leaves a plateau of seventeen twentieths
/// of the window, rounded down, for windows of up to `2^46` bytes, and within nine parts in `2^53`
/// and a byte beyond. A loss at the plateau or above leaves the window as the plateau.
pub proof fn law_fast_convergence_leaves_seventeen_twentieths(s: State, now: Instant)
    requires
        s.fits(),
        !s.in_fast_recovery,
    ensures
        ({
            let (window, plateau) = (s.cwnd, s.lost(now).w_max);
            &&& s.w_max <= window ==> plateau == window
            &&& window < s.w_max ==> {
                &&& SIGNIFICAND_END * (20 * plateau) <= (SIGNIFICAND_END + 9) * (17 * window)
                &&& (SIGNIFICAND_END - 9) * (17 * window) <= SIGNIFICAND_END * (20 * plateau + 20)
                &&& window <= EXACT_WINDOW ==> plateau == (17 * window) / 20
            }
        }),
{
    law_lowered_plateau_near_seventeen_twentieths(s.cwnd);
    if s.cwnd <= EXACT_WINDOW {
        law_lowered_plateau_rounds_down(s.cwnd);
    }
}

/// The plateau after a timeout is the window at the timeout, whether it is above or below the
/// earlier plateau, and a new epoch begins; the threshold is half of what is in flight, rounded
/// down, or two segments if those are more.
pub proof fn law_timeout_moves_plateau(s: State, now: Instant, in_flight: nat)
    ensures
        s.timed_out(now, in_flight).w_max == s.cwnd,
        s.timed_out(now, in_flight).cwnd == s.min_cwnd,
        s.timed_out(now, in_flight).recovery_start == Some(now),
        !s.timed_out(now, in_flight).in_fast_recovery,
        s.timed_out(now, in_flight).min_cwnd == s.min_cwnd,
        s.timed_out(now, in_flight).rwnd == s.rwnd,
        in_flight < 4 * s.min_cwnd ==> s.timed_out(now, in_flight).ssthresh == 2 * s.min_cwnd,
        4 * s.min_cwnd <= in_flight ==> {
            let ssthresh = s.timed_out(now, in_flight).ssthresh;
            2 * ssthresh <= in_flight <= 2 * ssthresh + 1
        },
{
}

/// A timeout leaves a window of one segment and a threshold of half of what is in flight, or of
/// two segments, and slow start begins unless segments are empty.
pub proof fn law_timeout_restarts(s: State, now: Instant, in_flight: nat)
    ensures
        s.timed_out(now, in_flight).cwnd == s.min_cwnd,
        s.timed_out(now, in_flight).ssthresh >= 2 * s.min_cwnd,
        4 * s.min_cwnd <= in_flight ==> s.timed_out(now, in_flight).ssthresh == in_flight / 2,
        s.min_cwnd > 0 ==> !s.timed_out(now, in_flight).avoiding(),
        !s.timed_out(now, in_flight).in_fast_recovery,
{
}

/// Slow start grows the window by the acknowledged bytes, but by no more than a segment, as far
/// as the remote window allows; the window does not fall below a segment, nor does it shrink
/// unless it was beyond the remote window.
pub proof fn law_slow_start(s: State, now: Instant, len: nat)
    requires
        !s.in_fast_recovery,
        s.cwnd < s.ssthresh,
    ensures
        s.acked(now, len).cwnd <= s.cwnd + s.min_cwnd,
        s.min_cwnd <= s.acked(now, len).cwnd <= max(s.rwnd, s.min_cwnd),
        s.cwnd <= s.rwnd ==> s.cwnd <= s.acked(now, len).cwnd,
        s.min_cwnd <= s.cwnd + min(len, s.min_cwnd) <= s.rwnd ==> s.acked(now, len).cwnd == s.cwnd
            + min(len, s.min_cwnd),
        len <= s.min_cwnd <= s.cwnd + len <= s.rwnd ==> s.acked(now, len).cwnd == s.cwnd + len,
        s.min_cwnd <= len && s.cwnd + s.min_cwnd <= s.rwnd ==> s.acked(now, len).cwnd == s.cwnd
            + s.min_cwnd,
        s.min_cwnd <= s.rwnd < s.cwnd + len && s.rwnd < s.cwnd + s.min_cwnd ==> s.acked(
            now,
            len,
        ).cwnd == s.rwnd,
        s.cwnd + len < s.min_cwnd ==> s.acked(now, len).cwnd == s.min_cwnd,
        s.rwnd < s.min_cwnd ==> s.acked(now, len).cwnd == s.min_cwnd,
{
}

/// In congestion avoidance the window is brought within the remote window, and up to a segment as
/// far as that allows, by every acknowledgement since the loss, unless the plateau is empty.
pub proof fn law_avoidance_bounds(s: State, now: Instant, len: nat)
    requires
        s.fits(),
        s.avoiding(),
        s.recovery_start is Some,
    ensures
        s.acked(now, len) == s || min(s.min_cwnd, s.rwnd) <= s.acked(now, len).cwnd <= s.rwnd,
        s.w_max > 0 && s.recovery_start->0.millis() <= now.millis() ==> min(s.min_cwnd, s.rwnd)
            <= s.acked(now, len).cwnd <= s.rwnd,
{
    lemma2_to64();
    if s.min_cwnd == 0 {
        lemma_empty_segments(s.w_max, 0);
    } else {
        lemma_plateau_between(s.w_max, s.min_cwnd);
    }
}

/// In congestion avoidance the window goes by the clock alone: a later acknowledgement does not
/// give a smaller window, whatever its length.
pub proof fn law_avoidance_never_falls(s: State, t1: Instant, t2: Instant, len1: nat, len2: nat)
    requires
        s.fits(),
        s.avoiding(),
        s.recovery_start is Some,
        s.recovery_start->0.millis() <= t1.millis() <= t2.millis(),
    ensures
        s.acked(t1, len1).cwnd <= s.acked(t2, len2).cwnd,
{
    let start = s.recovery_start->0.millis();
    s.recovery_start->0.lemma_millis();
    t2.lemma_millis();
    if let Some(k) = plateau_time(s.w_max, s.min_cwnd) {
        law_curve_never_falls(
            s.w_max,
            s.min_cwnd,
            k,
            (t1.millis() - start) as nat,
            (t2.millis() - start) as nat,
        );
    }
}

/// Congestion avoidance reaches the plateau at the time `K`: from then on the window is at the
/// plateau or above, and until then at it or below, as far as the segment and the remote window
/// allow. A plateau of more than fifty-three digits counts as the number that it rounds to.
pub proof fn law_avoidance_meets_plateau(s: State, now: Instant, len: nat)
    requires
        s.fits(),
        s.avoiding(),
        s.recovery_start is Some,
        s.recovery_start->0.millis() <= now.millis(),
    ensures
        ({
            let elapsed = seconds((now.millis() - s.recovery_start->0.millis()) as nat);
            let plateau = Value::whole(s.w_max).truncated(usize::MAX as nat);
            &&& s.w_max <= SIGNIFICAND_END ==> plateau == s.w_max
            &&& s.w_max > 0 ==> plateau_time(s.w_max, s.min_cwnd) is Some
            &&& plateau_time(s.w_max, s.min_cwnd) matches Some(k) ==> {
                &&& k.at_most(elapsed) ==> min(plateau, s.rwnd) <= s.acked(now, len).cwnd
                &&& elapsed.at_most(k) ==> s.acked(now, len).cwnd <= max(plateau, s.min_cwnd)
            }
        }),
{
    let millis = (now.millis() - s.recovery_start->0.millis()) as nat;
    lemma2_to64();
    now.lemma_millis();
    s.recovery_start->0.lemma_millis();
    if s.min_cwnd == 0 {
        lemma_empty_segments(s.w_max, millis);
    } else {
        lemma_plateau_between(s.w_max, s.min_cwnd);
    }
    if let Some(k) = plateau_time(s.w_max, s.min_cwnd) {
        law_curve_meets_plateau(s.w_max, s.min_cwnd, k, millis);
    } else {
        lemma_whole_exact(0);
        lemma_span_order(0, 0);
        assert(0 * span(0) == 0) by (nonlinear_arith);
        vstd::arithmetic::div_mod::lemma_div_of0(span(0) as int);
    }
}

/// In congestion avoidance an acknowledgement does not depend on the window that earlier ones gave.
pub proof fn law_avoidance_forgets_window(s: State, t1: Instant, t2: Instant, len1: nat, len2: nat)
    requires
        s.avoiding(),
        s.recovery_start is Some,
        s.recovery_start->0.millis() <= t1.millis() <= t2.millis(),
        s.acked(t1, len1).avoiding(),
    ensures
        s.acked(t1, len1).acked(t2, len2) == s.acked(t2, len2),
{
}

/// Congestion avoidance grows slowly before the time `K`: from one acknowledgement to another by no
/// more than `slope_bound` and a byte, which is less than a segment where that bound is.
pub proof fn law_avoidance_grows_slowly(s: State, t1: Instant, t2: Instant, len1: nat, len2: nat)
    requires
        s.fits(),
        s.avoiding(),
        s.recovery_start is Some,
        s.recovery_start->0.millis() <= t1.millis() <= t2.millis(),
    ensures
        ({
            let elapsed = seconds((t2.millis() - s.recovery_start->0.millis()) as nat);
            let (before, after) = (s.acked(t1, len1).cwnd, s.acked(t2, len2).cwnd);
            plateau_time(s.w_max, s.min_cwnd) matches Some(k) ==> elapsed.at_most(k) ==> {
                let bound = slope_bound(s.min_cwnd, k, (t2.millis() - t1.millis()) as nat);
                &&& 17179869184 * (10000 * ((after - before - 1) * cubed(span(0)))) <= bound
                &&& bound < 17179869184 * (10000 * ((s.min_cwnd - 1) * cubed(span(0)))) ==> after
                    < before + s.min_cwnd
            }
        }),
{
    let start = s.recovery_start->0.millis();
    let (m1, m2) = ((t1.millis() - start) as nat, (t2.millis() - start) as nat);
    lemma2_to64();
    s.recovery_start->0.lemma_millis();
    t2.lemma_millis();
    if let Some(k) = plateau_time(s.w_max, s.min_cwnd) {
        if seconds(m2).at_most(k) {
            if s.min_cwnd == 0 {
                lemma_empty_segments(s.w_max, m2);
            }
            law_curve_never_falls(s.w_max, s.min_cwnd, k, m1, m2);
            law_curve_grows_slowly(s.w_max, s.min_cwnd, k, m1, m2);
            let x1 = curve(s.w_max, s.min_cwnd, k, m1).truncated(usize::MAX as nat);
            let x2 = curve(s.w_max, s.min_cwnd, k, m2).truncated(usize::MAX as nat);
            let (before, after) = (s.acked(t1, len1).cwnd, s.acked(t2, len2).cwnd);
            let u = cubed(span(0));
            assert(after - before - 1 <= x2 - x1 - 1);
            assert((after - before - 1) * u <= (x2 - x1 - 1) * u) by (nonlinear_arith)
                requires
                    after - before - 1 <= x2 - x1 - 1,
                    u >= 0,
            ;
            if after >= before + s.min_cwnd {
                assert((s.min_cwnd - 1) * u <= (after - before - 1) * u) by (nonlinear_arith)
                    requires
                        s.min_cwnd - 1 <= after - before - 1,
                        u >= 0,
                ;
            }
        }
    }
}

/// At small intervals congestion avoidance grows by less than a segment per acknowledgement: before
/// the time `K`, where `C * 3 * K^2` times the seconds between the two is at most half a segment,
/// for segments of at least three bytes and plateaus from a sixty-fourth of a segment to `2^42`
/// bytes.
pub proof fn law_avoidance_grows_by_less_than_a_segment(
    s: State,
    t1: Instant,
    t2: Instant,
    len1: nat,
    len2: nat,
)
    requires
        s.fits(),
        s.avoiding(),
        s.recovery_start is Some,
        s.recovery_start->0.millis() <= t1.millis() <= t2.millis(),
        3 <= s.min_cwnd <= 64 * s.w_max,
        s.w_max < 4398046511104,
        plateau_time(s.w_max, s.min_cwnd) matches Some(k) && {
            let elapsed = seconds((t2.millis() - s.recovery_start->0.millis()) as nat);
            let units = k.signed_units();
            &&& elapsed.at_most(k)
            &&& 12 * ((units * units) * (t2.millis() - t1.millis())) <= 5000 * (span(0) * span(0))
        },
    ensures
        s.acked(t2, len2).cwnd < s.acked(t1, len1).cwnd + s.min_cwnd,
{
    let o = span(0);
    let (w, m) = (s.w_max, s.min_cwnd);
    let k = plateau_time(w, m)->0;
    let u = k.signed_units();
    let d = t2.millis() - t1.millis();
    lemma_span_order(0, 0);
    law_avoidance_grows_slowly(s, t1, t2, len1, len2);
    law_plateau_time_accurate(w, m);
    let o3 = cubed(o);
    let (mo3, wo3, uu) = (m * o3, w * o3, u * u);
    let steep = (m * uu) * (d * o);
    assert(12 * steep <= 5000 * mo3) by (nonlinear_arith)
        requires
            12 * (uu * d) <= 5000 * (o * o),
            steep == (m * uu) * (d * o),
            mo3 == m * o3,
            o3 == o * o * o,
            m >= 0,
            o >= 0,
    {
        let mo = m * o;
        assert(mo * (12 * (uu * d)) <= mo * (5000 * (o * o)));
        assert(mo * (uu * d) == steep);
        assert(mo * (o * o) == mo3);
    }
    assert(wo3 <= 4398046511104 * o3 && o3 > 0 && 3 * o3 <= mo3 && (m - 1) * o3 == mo3 - o3)
        by (nonlinear_arith)
        requires
            w <= 4398046511104,
            m >= 3,
            o > 0,
            o3 == o * o * o,
            wo3 == w * o3,
            mo3 == m * o3,
    {
        assert(o * o > 0);
        assert(o * o * o > 0);
    }
}

/// Congestion avoidance approaches the plateau as the time approaches `K`: the window is no further
/// from it than `C * min_cwnd * |t - K|^3` and a byte, but for one part in `2^48` of that and of
/// `w_max`. The plateau counts as far as the segment and the remote window allow.
pub proof fn law_avoidance_approaches_plateau(s: State, now: Instant, len: nat)
    requires
        s.fits(),
        s.avoiding(),
        s.min_cwnd > 0,
        s.w_max > 0,
        s.recovery_start is Some,
        s.recovery_start->0.millis() <= now.millis(),
    ensures
        ({
            let millis = (now.millis() - s.recovery_start->0.millis()) as nat;
            let plateau = min(max(s.w_max, s.min_cwnd), s.rwnd);
            let distance = abs(s.acked(now, len).cwnd - plateau);
            plateau_time(s.w_max, s.min_cwnd) matches Some(k) && 281474976710656 * (10 * ((distance
                - 1) * cubed(span(0)))) <= 281474976710657 * abs(
                tenfold_cubic(s.min_cwnd, past(k, millis)),
            ) + 10 * (s.w_max * cubed(span(0)))
        }),
{
    let millis = (now.millis() - s.recovery_start->0.millis()) as nat;
    lemma2_to64();
    s.recovery_start->0.lemma_millis();
    now.lemma_millis();
    lemma_plateau_between(s.w_max, s.min_cwnd);
    let k = plateau_time(s.w_max, s.min_cwnd)->0;
    law_curve_approaches_plateau(s.w_max, s.min_cwnd, k, millis);
    let x = curve(s.w_max, s.min_cwnd, k, millis).truncated(usize::MAX as nat);
    let plateau = min(max(s.w_max, s.min_cwnd), s.rwnd);
    let (near, far) = (abs(s.acked(now, len).cwnd - plateau), abs(x - s.w_max));
    let u = cubed(span(0));
    assert((near - 1) * u <= (far - 1) * u) by (nonlinear_arith)
        requires
            near <= far,
            u >= 0,
    ;
}

/// The state after a number of acknowledgements of new data.
pub open spec fn acknowledged(s: State, acks: Seq<(Instant, nat)>) -> State
    decreases acks.len(),
{
    if acks.len() == 0 {
        s
    } else {
        acknowledged(s, acks.drop_last()).acked(acks.last().0, acks.last().1)
    }
}

/// After a loss at the plateau or above, whose cut leaves two segments and lies within the remote
/// window, the end of fast recovery is not followed by a smaller window: however many
/// acknowledgements come, each leaves the threshold, less at most a byte and one part in `2^33` of
/// the window at the loss.
pub proof fn law_recovery_keeps_window(
    s: State,
    lost: Instant,
    lens: Seq<nat>,
    now: Instant,
    len: nat,
    acks: Seq<(Instant, nat)>,
)
    requires
        s.fits(),
        !s.in_fast_recovery,
        0 < s.min_cwnd,
        s.w_max <= s.cwnd,
        2 * s.min_cwnd <= cut(s.cwnd) <= s.rwnd,
    ensures
        ({
            let ended = repeated(s.lost(lost), lens).acked(now, len);
            let later = acknowledged(ended, acks);
            &&& ended.cwnd == cut(s.cwnd)
            &&& 8589934592 * (ended.cwnd - later.cwnd - 1) <= s.cwnd
            &&& s.cwnd < 8589934592 ==> ended.cwnd <= later.cwnd + 1
        }),
    decreases acks.len(),
{
    let ended = repeated(s.lost(lost), lens).acked(now, len);
    law_recovery_ends_at_threshold(s, lost, lens, now, len);
    lemma_repeated(s.lost(lost), lens);
    law_cut_shrinks(s.cwnd);
    if acks.len() > 0 {
        let earlier = acknowledged(ended, acks.drop_last());
        let (t, l) = acks.last();
        law_recovery_keeps_window(s, lost, lens, now, len, acks.drop_last());
        lemma_acknowledged(ended, acks.drop_last());
        if earlier.cwnd < earlier.ssthresh {
            law_slow_start(earlier, t, l);
        } else if lost.millis() <= t.millis() {
            lemma_above_cut(s.cwnd, s.min_cwnd, lost, t);
        }
    }
}

proof fn lemma_acknowledged(s: State, acks: Seq<(Instant, nat)>)
    requires
        !s.in_fast_recovery,
    ensures
        acknowledged(s, acks) == (State { cwnd: acknowledged(s, acks).cwnd, ..s }),
    decreases acks.len(),
{
    if acks.len() > 0 {
        lemma_acknowledged(s, acks.drop_last());
    }
}

/// After a loss at the window `c`, the curve gives at least the cut, but for a byte and a trace.
proof fn lemma_above_cut(c: nat, min_cwnd: nat, lost: Instant, now: Instant)
    requires
        c <= usize::MAX,
        1 <= min_cwnd <= usize::MAX,
        3 * min_cwnd <= 4 * c,
        lost.millis() <= now.millis(),
    ensures
        plateau_time(c, min_cwnd) matches Some(k) && {
            let millis = (now.millis() - lost.millis()) as nat;
            let window = curve(c, min_cwnd, k, millis).truncated(usize::MAX as nat);
            8589934592 * (cut(c) - window - 1) <= c
        },
{
    let o = span(0);
    lemma2_to64();
    lost.lemma_millis();
    now.lemma_millis();
    lemma_plateau_between(c, min_cwnd);
    let k = plateau_time(c, min_cwnd)->0;
    law_curve_starts_at_cut(c, min_cwnd, k);
    law_curve_never_falls(c, min_cwnd, k, 0, (now.millis() - lost.millis()) as nat);
    law_cut_near_seven_tenths(c);
    law_cut_shrinks(c);
    let x = curve(c, min_cwnd, k, 0);
    let n = x->Finite_units;
    let window = x.truncated(usize::MAX as nat);
    lemma_span_order(0, 0);
    lemma_divides(n, o);
    let co = c * o;
    assert(co >= o) by (nonlinear_arith)
        requires
            c >= 1,
            co == c * o,
    ;
    if window < usize::MAX {
        let wo = window * o;
        assert(1073741824 * (7 * co) <= 1073741824 * (10 * (wo + o)) + co);
        assert(1073741824 * (7 * c) <= 1073741824 * (10 * (window + 1)) + c) by (nonlinear_arith)
            requires
                1073741824 * (7 * co) <= 1073741824 * (10 * (wo + o)) + co,
                co == c * o,
                wo == window * o,
                o > 0,
        {
            assert((1073741824 * (7 * c)) * o <= (1073741824 * (10 * (window + 1)) + c) * o);
        }
    }
}

/// The window at the end of fast recovery is kept to the byte once the curve has grown by one, for
/// windows below `2^33`.
pub proof fn law_recovery_keeps_window_later(
    s: State,
    lost: Instant,
    lens: Seq<nat>,
    now: Instant,
    len: nat,
    later: Instant,
    last: nat,
)
    requires
        s.fits(),
        !s.in_fast_recovery,
        0 < s.min_cwnd,
        s.w_max <= s.cwnd < 8589934592,
        2 * s.min_cwnd <= cut(s.cwnd) <= s.rwnd,
        lost.millis() <= later.millis(),
        plateau_time(s.cwnd, s.min_cwnd) matches Some(k) && grown_a_byte(
            s.min_cwnd,
            k,
            (later.millis() - lost.millis()) as nat,
        ),
    ensures
        ({
            let ended = repeated(s.lost(lost), lens).acked(now, len);
            ended.cwnd <= ended.acked(later, last).cwnd
        }),
{
    let c = s.cwnd;
    let m = s.min_cwnd;
    let millis = (later.millis() - lost.millis()) as nat;
    let k = plateau_time(c, m)->0;
    lemma2_to64();
    lost.lemma_millis();
    later.lemma_millis();
    law_recovery_ends_at_threshold(s, lost, lens, now, len);
    lemma_repeated(s.lost(lost), lens);
    law_cut_shrinks(c);
    lemma_above_cut(c, m, lost, lost);
    if seconds(millis).at_most(k) {
        law_curve_leaves_start(c, m, k, millis);
    } else {
        lemma_plateau_between(c, m);
        lemma_seconds(millis, millis);
        law_curve_meets_plateau(c, m, k, millis);
    }
}

/// In congestion avoidance the window is the whole part of `w_max + C * min_cwnd * (t - K)^3`,
/// within one part in `2^48` of either term, brought up to a segment and then down to the remote
/// window. So it is before the time `K` and after it, whatever the window and the threshold were;
/// and the window is the remote window as soon as the curve is beyond that.
pub proof fn law_avoidance_follows_curve(s: State, now: Instant, len: nat)
    requires
        s.fits(),
        !s.in_fast_recovery,
        s.ssthresh <= s.cwnd,
        s.min_cwnd > 0,
        s.w_max > 0,
        s.recovery_start is Some,
        s.recovery_start->0.millis() <= now.millis(),
    ensures
        ({
            let millis = (now.millis() - s.recovery_start->0.millis()) as nat;
            let window = s.acked(now, len).cwnd;
            let bytes = 10 * cubed(span(0));
            plateau_time(s.w_max, s.min_cwnd) matches Some(k) && {
                let exact = tenfold_curve(s.w_max, s.min_cwnd, past(k, millis));
                let size = tenfold_size(s.w_max, s.min_cwnd, past(k, millis));
                &&& window <= s.rwnd
                &&& window < s.rwnd ==> s.min_cwnd <= window
                &&& s.min_cwnd < window ==> 281474976710656 * (window * bytes) <= 281474976710656
                    * exact + size
                &&& window < s.rwnd ==> 281474976710656 * exact < 281474976710656 * ((window + 1)
                    * bytes) + size
                &&& 281474976710656 * (s.rwnd * bytes) + size <= 281474976710656 * exact ==> window
                    == s.rwnd
                &&& 281474976710656 * exact + size < 281474976710656 * ((s.min_cwnd + 1) * bytes)
                    && s.min_cwnd <= s.rwnd ==> window == s.min_cwnd
            }
        }),
{
    let millis = (now.millis() - s.recovery_start->0.millis()) as nat;
    lemma2_to64();
    s.recovery_start->0.lemma_millis();
    now.lemma_millis();
    lemma_plateau_between(s.w_max, s.min_cwnd);
    let k = plateau_time(s.w_max, s.min_cwnd)->0;
    law_curve_gives_whole_part(s.w_max, s.min_cwnd, k, millis);
    let window = s.acked(now, len).cwnd;
    let bytes = 10 * cubed(span(0));
    let x = curve(s.w_max, s.min_cwnd, k, millis).truncated(usize::MAX as nat);
    assert(s.min_cwnd < window ==> window * bytes <= x * bytes) by (nonlinear_arith)
        requires
            s.min_cwnd < window ==> window <= x,
            bytes >= 0,
    ;
    assert(window < s.rwnd ==> (x + 1) * bytes <= (window + 1) * bytes && (window + 1) * bytes
        <= s.rwnd * bytes) by (nonlinear_arith)
        requires
            window < s.rwnd ==> x <= window,
            bytes >= 0,
    ;
    assert(s.min_cwnd < window ==> (s.min_cwnd + 1) * bytes <= window * bytes) by (nonlinear_arith)
        requires
            bytes >= 0,
    ;
}

/// Right after a loss or a timeout the curve gives seven tenths of the plateau, rounded down, or a
/// byte less, brought up to a segment and then down to the remote window: growth starts there,
/// however great the window is. It holds for plateaus of at least three quarters of a segment and
/// less than `2^30` bytes.
pub proof fn law_avoidance_starts_at_cut(s: State, now: Instant, len: nat)
    requires
        s.fits(),
        !s.in_fast_recovery,
        s.ssthresh <= s.cwnd,
        s.min_cwnd > 0,
        3 * s.min_cwnd <= 4 * s.w_max,
        s.w_max < 1073741824,
        s.recovery_start is Some,
        s.recovery_start->0.millis() == now.millis(),
    ensures
        s.acked(now, len).cwnd <= s.rwnd,
        s.min_cwnd < s.acked(now, len).cwnd ==> 10 * s.acked(now, len).cwnd <= 7 * s.w_max,
        s.acked(now, len).cwnd < s.rwnd ==> 7 * s.w_max <= 10 * s.acked(now, len).cwnd + 10,
        s.acked(now, len).cwnd < s.rwnd ==> s.min_cwnd <= s.acked(now, len).cwnd,
{
    lemma2_to64();
    lemma_plateau_between(s.w_max, s.min_cwnd);
    law_curve_starts_at_cut(s.w_max, s.min_cwnd, plateau_time(s.w_max, s.min_cwnd)->0);
}

/// Without a plateau congestion avoidance leaves the window as it is, and with empty segments it
/// leaves none.
pub proof fn law_avoidance_without_curve(s: State, now: Instant, len: nat)
    requires
        s.fits(),
        !s.in_fast_recovery,
        s.ssthresh <= s.cwnd,
        s.recovery_start is Some,
        s.recovery_start->0.millis() <= now.millis(),
    ensures
        s.min_cwnd > 0 && s.w_max == 0 ==> s.acked(now, len) == s,
        s.min_cwnd == 0 ==> s.acked(now, len).cwnd == 0,
{
    let millis = (now.millis() - s.recovery_start->0.millis()) as nat;
    lemma2_to64();
    s.recovery_start->0.lemma_millis();
    now.lemma_millis();
    if s.min_cwnd == 0 {
        lemma_empty_segments(s.w_max, millis);
    } else {
        lemma_plateau_between(s.w_max, s.min_cwnd);
    }
}

/// An acknowledgement of new data ends fast recovery, and otherwise changes the window alone.
pub proof fn law_ack_changes_window_alone(s: State, now: Instant, len: nat)
    ensures
        !s.acked(now, len).in_fast_recovery,
        s.acked(now, len).w_max == s.w_max,
        s.acked(now, len).min_cwnd == s.min_cwnd,
        s.acked(now, len).ssthresh == s.ssthresh,
        s.acked(now, len).rwnd == s.rwnd,
        s.acked(now, len).recovery_start == s.recovery_start,
        s.in_fast_recovery ==> s.acked(now, len).cwnd == s.ssthresh,
{
}

/// An acknowledgement from before the loss leaves congestion avoidance as it is.
pub proof fn law_early_ack_changes_nothing(s: State, now: Instant, len: nat)
    requires
        !s.in_fast_recovery,
        s.ssthresh <= s.cwnd,
        s.recovery_start is Some,
        now.millis() < s.recovery_start->0.millis(),
    ensures
        s.acked(now, len) == s,
{
}

} // verus!
