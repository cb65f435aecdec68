//! The bandwidth throttle.
//!
//! The throttle value is an integer in `[0, PACKET_THROTTLE_SCALE]`. On each
//! measurement interval, if the interval saw acknowledgements and no loss the
//! value rises by the configured acceleration (clamped to the scale); if loss
//! was observed it falls by the configured deceleration (clamped to zero).
//! Unreliable packets are dropped at send time with probability proportional
//! to `(SCALE - value) / SCALE`; reliable packets are never throttled.

use vstd::prelude::*;

verus! {

/// When the throttle has this value, no unreliable packets are dropped,
/// and so 100% of all unreliable packets will be sent.
pub const PACKET_THROTTLE_SCALE: u32 = 32;

/// The default measurement interval, in milliseconds.
pub const DEFAULT_THROTTLE_INTERVAL: u32 = 5000;

/// The default throttle acceleration.
pub const DEFAULT_THROTTLE_ACCELERATION: u32 = 2;

/// The default throttle deceleration.
pub const DEFAULT_THROTTLE_DECELERATION: u32 = 2;

/// One throttle update: up by `acc` without loss, down by `dec` with loss,
/// always clamped to `[0, PACKET_THROTTLE_SCALE]`.
pub open spec fn spec_throttle_step(t: u32, loss: bool, acc: u32, dec: u32) -> u32 {
    if loss {
        if t >= dec {
            (t - dec) as u32
        } else {
            0
        }
    } else {
        if t + acc <= PACKET_THROTTLE_SCALE {
            (t + acc) as u32
        } else {
            PACKET_THROTTLE_SCALE
        }
    }
}

/// The throttle value after `n` loss-free intervals.
pub open spec fn spec_throttle_run_clear(t: u32, n: nat, acc: u32) -> u32
    decreases n,
{
    if n == 0 {
        t
    } else {
        spec_throttle_step(spec_throttle_run_clear(t, (n - 1) as nat, acc), false, acc, 0)
    }
}

/// The throttle value after `n` intervals of sustained loss.
pub open spec fn spec_throttle_run_loss(t: u32, n: nat, dec: u32) -> u32
    decreases n,
{
    if n == 0 {
        t
    } else {
        spec_throttle_step(spec_throttle_run_loss(t, (n - 1) as nat, dec), true, 0, dec)
    }
}

/// Law: a throttle update never leaves `[0, PACKET_THROTTLE_SCALE]`.
pub proof fn lemma_throttle_step_bounds(t: u32, loss: bool, acc: u32, dec: u32)
    requires
        t <= PACKET_THROTTLE_SCALE,
    ensures
        spec_throttle_step(t, loss, acc, dec) <= PACKET_THROTTLE_SCALE,
{
}

/// Law: without loss the throttle never falls.
pub proof fn lemma_throttle_clear_monotone(t: u32, acc: u32, dec: u32)
    requires
        t <= PACKET_THROTTLE_SCALE,
    ensures
        spec_throttle_step(t, false, acc, dec) >= t,
{
}

/// Law: under loss the throttle never rises.
pub proof fn lemma_throttle_loss_monotone(t: u32, acc: u32, dec: u32)
    ensures
        spec_throttle_step(t, true, acc, dec) <= t,
{
}

/// Law: with a positive acceleration, enough loss-free intervals drive the
/// throttle all the way to `PACKET_THROTTLE_SCALE`, and it stays in range
/// throughout.
pub proof fn lemma_throttle_converges_up(t: u32, n: nat, acc: u32)
    requires
        t <= PACKET_THROTTLE_SCALE,
        acc >= 1,
    ensures
        spec_throttle_run_clear(t, n, acc) == if t + n * acc <= PACKET_THROTTLE_SCALE {
            (t + n * acc) as int
        } else {
            PACKET_THROTTLE_SCALE as int
        },
    decreases n,
{
    if n == 0 {
        assert(n * acc == 0);
    } else {
        lemma_throttle_converges_up(t, (n - 1) as nat, acc);
        assert(((n - 1) as nat) * acc == n * acc - acc) by (nonlinear_arith)
            requires n >= 1;
        assert(n * acc >= acc) by (nonlinear_arith)
            requires n >= 1;
    }
}

/// Law: with a positive deceleration, enough loss intervals drive the
/// throttle all the way to zero, and it never rises on the way.
pub proof fn lemma_throttle_converges_down(t: u32, n: nat, dec: u32)
    requires
        dec >= 1,
    ensures
        spec_throttle_run_loss(t, n, dec) == if t >= n * dec {
            t - n * dec
        } else {
            0int
        },
    decreases n,
{
    if n == 0 {
        assert(n * dec == 0);
    } else {
        lemma_throttle_converges_down(t, (n - 1) as nat, dec);
        assert(((n - 1) as nat) * dec == n * dec - dec) by (nonlinear_arith)
            requires n >= 1;
        assert(n * dec >= dec) by (nonlinear_arith)
            requires n >= 1;
    }
}

/// The next value of the engine's deterministic pseudo-random sequence.
pub open spec fn spec_next_random(s: u32) -> u32 {
    ((s * 1664525 + 1013904223) % 0x1_0000_0000) as u32
}

/// Steps the pseudo-random sequence used for throttled sends.
pub fn next_random(s: u32) -> (r: u32)
    ensures
        r == spec_next_random(s),
{
    let wide: u64 = (s as u64) * 1664525u64 + 1013904223u64;
    (wide % 0x1_0000_0000u64) as u32
}

/// Whether a throttle value admits an unreliable send for a given random
/// draw: a draw in `[0, SCALE)` below the value passes, so a full throttle
/// admits everything and a zero throttle admits nothing.
pub open spec fn spec_throttle_admits(t: u32, r: u32) -> bool {
    r % PACKET_THROTTLE_SCALE < t
}

/// Per-peer throttle state.
#[derive(Debug, Clone, Copy)]
pub struct Throttle {
    /// The current throttle value, always in `[0, PACKET_THROTTLE_SCALE]`.
    pub value: u32,
    /// Length of a measurement interval in milliseconds.
    pub interval: u32,
    /// How much the value rises after a loss-free interval.
    pub acceleration: u32,
    /// How much the value falls after an interval with loss.
    pub deceleration: u32,
    /// When the current measurement interval began, in milliseconds.
    pub epoch: u32,
    /// Whether a retransmission fired during the current interval.
    pub loss_in_interval: bool,
    /// Whether an acknowledgement arrived during the current interval.
    pub ack_in_interval: bool,
}

impl Throttle {
    /// Well-formedness: the value stays on the throttle scale.
    pub open spec fn wf(self) -> bool {
        self.value <= PACKET_THROTTLE_SCALE
    }

    /// A fresh throttle with the default parameters, fully open.
    pub fn new(now: u32) -> (r: Throttle)
        ensures
            r.wf(),
            r.value == PACKET_THROTTLE_SCALE,
            r.interval == DEFAULT_THROTTLE_INTERVAL,
            r.acceleration == DEFAULT_THROTTLE_ACCELERATION,
            r.deceleration == DEFAULT_THROTTLE_DECELERATION,
            r.epoch == now,
    {
        Throttle {
            value: PACKET_THROTTLE_SCALE,
            interval: DEFAULT_THROTTLE_INTERVAL,
            acceleration: DEFAULT_THROTTLE_ACCELERATION,
            deceleration: DEFAULT_THROTTLE_DECELERATION,
            epoch: now,
            loss_in_interval: false,
            ack_in_interval: false,
        }
    }

    /// Overrides the throttle parameters; the current value is kept.
    pub fn configure(&mut self, interval: u32, acceleration: u32, deceleration: u32)
        requires
            old(self).wf(),
        ensures
            final(self).wf(),
            *final(self) == (Throttle { interval, acceleration, deceleration, ..*old(self) }),
    {
        self.interval = interval;
        self.acceleration = acceleration;
        self.deceleration = deceleration;
    }

    /// Closes a measurement interval if one has elapsed: applies one throttle
    /// step from what the interval observed, and opens the next interval.
    /// Between interval boundaries the value is untouched.
    pub fn tick(&mut self, now: u32)
        requires
            old(self).wf(),
            now >= old(self).epoch,
        ensures
            final(self).wf(),
            final(self).interval == old(self).interval,
            final(self).acceleration == old(self).acceleration,
            final(self).deceleration == old(self).deceleration,
            now - old(self).epoch < old(self).interval ==> *final(self) == *old(self),
            now - old(self).epoch >= old(self).interval ==> {
                &&& final(self).epoch == now
                &&& !final(self).loss_in_interval
                &&& !final(self).ack_in_interval
                &&& (old(self).loss_in_interval ==> final(self).value == spec_throttle_step(
                    old(self).value,
                    true,
                    old(self).acceleration,
                    old(self).deceleration,
                ))
                &&& (!old(self).loss_in_interval && old(self).ack_in_interval ==> final(self).value
                    == spec_throttle_step(
                    old(self).value,
                    false,
                    old(self).acceleration,
                    old(self).deceleration,
                ))
                &&& (!old(self).loss_in_interval && !old(self).ack_in_interval ==> final(self).value
                    == old(self).value)
            },
    {
        if now - self.epoch >= self.interval {
            if self.loss_in_interval {
                if self.value >= self.deceleration {
                    self.value = self.value - self.deceleration;
                } else {
                    self.value = 0;
                }
            } else if self.ack_in_interval {
                if (self.value as u64) + (self.acceleration as u64)
                    <= PACKET_THROTTLE_SCALE as u64 {
                    self.value = self.value + self.acceleration;
                } else {
                    self.value = PACKET_THROTTLE_SCALE;
                }
            }
            self.loss_in_interval = false;
            self.ack_in_interval = false;
            self.epoch = now;
        }
    }

    /// Records that a retransmission fired (loss was observed).
    pub fn note_loss(&mut self)
        requires
            old(self).wf(),
        ensures
            final(self).wf(),
            *final(self) == (Throttle { loss_in_interval: true, ..*old(self) }),
    {
        self.loss_in_interval = true;
    }

    /// Records that an acknowledgement arrived inside the interval.
    pub fn note_ack(&mut self)
        requires
            old(self).wf(),
        ensures
            final(self).wf(),
            *final(self) == (Throttle { ack_in_interval: true, ..*old(self) }),
    {
        self.ack_in_interval = true;
    }

    /// Whether the given random draw admits an unreliable send right now.
    pub fn admits(&self, draw: u32) -> (r: bool)
        ensures
            r == spec_throttle_admits(self.value, draw),
    {
        draw % PACKET_THROTTLE_SCALE < self.value
    }
}

/// Law: a full throttle admits every draw, and a zero throttle admits none.
pub proof fn lemma_throttle_admits_extremes(r: u32)
    ensures
        spec_throttle_admits(PACKET_THROTTLE_SCALE, r),
        !spec_throttle_admits(0, r),
{
}

} // verus!
