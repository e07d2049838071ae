//! The feedback controller that steers edge costs toward a target complexity.
//! Norms and penalties are fixed-point numbers in millionths.
use vstd::prelude::*;

verus! {

/// One million: the fixed-point unit of norms, rates and penalties.
pub const UNIT: u64 = 1_000_000;

/// A leaky-integrator controller: each step the penalty decays by `decay`
/// millionths of itself and gains `gain` times the error of the measurement.
#[derive(Debug, Clone, Copy, PartialEq, Eq, Structural)]
pub struct FeedbackController {
    /// Multiplier of the error (measured minus target).
    pub gain: u32,
    /// Share of the penalty lost each step, in millionths.
    pub decay: u32,
    /// Measurements below this mean a degenerate signal, in millionths.
    pub threshold: u64,
    /// The complexity aimed at, in millionths.
    pub target: u64,
}

/// The penalty after one step from `penalty` on a measurement `measured`: zero
/// first when the measurement is below the threshold, then decayed, moved by
/// the scaled error, and kept within `0..=u64::MAX`.
pub open spec fn next_penalty(c: FeedbackController, penalty: u64, measured: u64) -> int {
    let p: int = if measured < c.threshold {
        0
    } else {
        penalty as int
    };
    let v = p * (UNIT - c.decay) / (UNIT as int) + (measured - c.target) * c.gain;
    if v < 0 {
        0
    } else if v > u64::MAX {
        u64::MAX as int
    } else {
        v
    }
}

/// Whatever the measurements, the controller's penalty is never negative.
pub proof fn lemma_penalty_nonneg(c: FeedbackController, penalty: u64, measured: u64)
    ensures
        next_penalty(c, penalty, measured) >= 0,
{
}

impl FeedbackController {
    /// A controller with the given gain, decay, threshold and target.
    pub fn new(gain: u32, decay: u32, threshold: u64, target: u64) -> (r: Option<Self>)
        ensures
            decay <= UNIT ==> r == Some(FeedbackController { gain, decay, threshold, target }),
            decay > UNIT ==> r is None,
    {
        if decay as u64 <= UNIT {
            Some(FeedbackController { gain, decay, threshold, target })
        } else {
            None
        }
    }

    /// The error of a measurement: measured minus target.
    pub fn error(&self, measured: u64) -> (r: i128)
        ensures
            r == measured - self.target,
    {
        measured as i128 - self.target as i128
    }

    /// One controller step: the next penalty from the current one and a measurement.
    pub fn update(&self, penalty: u64, measured: u64) -> (r: u64)
        requires
            self.decay <= UNIT,
        ensures
            r == next_penalty(*self, penalty, measured),
    {
        let p: u128 = if measured < self.threshold {
            0
        } else {
            penalty as u128
        };
        proof {
            assert(p * (UNIT - self.decay) <= 0xffff_ffff_ffff_ffffu128 * 1_000_000u128) by (nonlinear_arith)
                requires
                    p <= 0xffff_ffff_ffff_ffffu128,
                    UNIT - self.decay <= 1_000_000,
                    UNIT - self.decay >= 0,
            ;
        }
        let kept = p * ((UNIT - self.decay as u64) as u128) / (UNIT as u128);
        let err = self.error(measured);
        proof {
            assert(-0x1_0000_0000_0000_0000i128 <= err <= 0x1_0000_0000_0000_0000i128);
            assert(-0x1_0000_0000_0000_0000 * 0x1_0000_0000 <= err * self.gain <= 0x1_0000_0000_0000_0000 * 0x1_0000_0000) by (nonlinear_arith)
                requires
                    -0x1_0000_0000_0000_0000i128 <= err <= 0x1_0000_0000_0000_0000i128,
                    0 <= self.gain <= 0xffff_ffff,
            ;
            assert(kept <= 0xffff_ffff_ffff_ffffu128 * 1_000_000u128) by {
                vstd::arithmetic::div_mod::lemma_div_is_ordered_by_denominator(
                    p * (UNIT - self.decay) as int,
                    1,
                    1_000_000,
                );
            }
        }
        let v: i128 = kept as i128 + err * (self.gain as i128);
        if v < 0 {
            0
        } else if v > u64::MAX as i128 {
            u64::MAX
        } else {
            v as u64
        }
    }
}

} // verus!
