//! Hysteresis (Schmitt-trigger) zero-crossing detector.
//!
//! Samples are fixed-point integers: a level of 1.0 is [`SAMPLE_SCALE`]
//! units, so the falling threshold of -0.1 is [`FALL_THRESHOLD`] units.

use vstd::prelude::*;

verus! {

/// Fixed-point units per 1.0 of signal level.
pub const SAMPLE_SCALE: i32 = 1_000_000;

/// The falling threshold of the hysteresis band, -0.1 in fixed point.
/// A sample below it drives the level low; a sample above zero drives it
/// high; in between, the level keeps its previous value.
pub const FALL_THRESHOLD: i32 = -100_000;

/// One step of the detector: the new level after seeing sample `s` when the
/// level was `prev`.
pub open spec fn zc_step(prev: bool, s: i32) -> bool {
    if s > 0 {
        true
    } else if s < FALL_THRESHOLD {
        false
    } else {
        prev
    }
}

/// The level after the detector, started fresh, has consumed `s[0..=i]`.
pub open spec fn zc_level_at(s: Seq<i32>, i: int) -> bool
    decreases i + 1,
{
    if i < 0 {
        false
    } else {
        zc_step(zc_level_at(s, i - 1), s[i])
    }
}

/// The binarized window: one level per sample.
pub open spec fn zc_levels(s: Seq<i32>) -> Seq<bool> {
    Seq::new(s.len(), |i: int| zc_level_at(s, i))
}

/// The detector's single bit of state: the current level.
pub struct ZeroCross {
    /// Current output level.
    pub y: bool,
}

impl ZeroCross {
    /// A fresh detector; the level starts low.
    pub fn new() -> (r: Self)
        ensures
            !r.y,
    {
        ZeroCross { y: false }
    }

    /// Feeds one sample and returns the updated level.
    pub fn run(&mut self, s: i32) -> (r: bool)
        ensures
            final(self).y == zc_step(old(self).y, s),
            r == final(self).y,
    {
        if s < FALL_THRESHOLD {
            self.y = false
        }
        if s > 0 {
            self.y = true
        }
        self.y
    }
}

/// A window that stays strictly positive never triggers a falling edge: the
/// level is high at every sample.
pub proof fn lemma_positive_window_level_high(s: Seq<i32>, i: int)
    requires
        forall|j: int| 0 <= j < s.len() ==> s[j] > 0,
        0 <= i < s.len(),
    ensures
        zc_level_at(s, i),
    decreases i,
{
    if i > 0 {
        lemma_positive_window_level_high(s, i - 1);
    }
}

/// A window that never rises above zero never triggers a rising edge: the
/// level is low at every sample.
pub proof fn lemma_nonpositive_window_level_low(s: Seq<i32>, i: int)
    requires
        forall|j: int| 0 <= j < s.len() ==> s[j] <= 0,
        0 <= i < s.len(),
    ensures
        !zc_level_at(s, i),
    decreases i,
{
    if i > 0 {
        lemma_nonpositive_window_level_low(s, i - 1);
    } else {
        assert(!zc_level_at(s, -1));
    }
}

} // verus!
