//! The brightness sampler's capture cadence: expensive capture work runs
//! only when a full interval has elapsed since the last recorded pass.
//!
//! The bookkeeping instant is updated only when a pass completes (or is
//! deliberately skipped), so a failed iteration does not corrupt the
//! fixed-cadence reattempt policy.

use vstd::prelude::*;

verus! {

/// The default capture interval, in milliseconds.
pub const DEFAULT_INTERVAL_MS: u64 = 100;

/// Decides when the next capture pass is due, from a monotone
/// millisecond clock supplied by the caller.
pub struct CaptureCadence {
    interval_ms: u64,
    last_capture_ms: u64,
}

impl CaptureCadence {
    /// The configured minimum spacing between passes, in milliseconds.
    pub closed spec fn interval(&self) -> u64 {
        self.interval_ms
    }

    /// The clock reading recorded for the last completed pass.
    pub closed spec fn last_capture(&self) -> u64 {
        self.last_capture_ms
    }

    /// Whether a pass is due at the instant `now_ms`.
    pub open spec fn due_spec(&self, now_ms: u64) -> bool {
        now_ms >= self.last_capture() && now_ms - self.last_capture() >= self.interval()
    }

    /// A cadence that treats `now_ms` as the moment of the last pass.
    pub fn new(interval_ms: u64, now_ms: u64) -> (r: CaptureCadence)
        ensures
            r.interval() == interval_ms,
            r.last_capture() == now_ms,
    {
        CaptureCadence { interval_ms, last_capture_ms: now_ms }
    }

    /// Whether the sampler should capture now: true exactly when a full
    /// interval has elapsed since the last recorded pass.
    pub fn due(&self, now_ms: u64) -> (r: bool)
        ensures
            r == self.due_spec(now_ms),
    {
        now_ms >= self.last_capture_ms && now_ms - self.last_capture_ms >= self.interval_ms
    }

    /// Record that the pass at `now_ms` completed or was deliberately
    /// skipped; only then does the bookkeeping instant move.
    pub fn mark_captured(&mut self, now_ms: u64)
        ensures
            final(self).interval() == old(self).interval(),
            final(self).last_capture() == now_ms,
    {
        self.last_capture_ms = now_ms;
    }
}

/// Law (monotonic cadence): after a pass is recorded at `last_capture()`,
/// no further pass is due until a full interval has elapsed, so successive
/// brightness emissions for a display are spaced at least `interval()`
/// milliseconds apart on a monotone clock.
pub proof fn lemma_cadence_spacing(c: CaptureCadence, now_ms: u64)
    requires
        c.due_spec(now_ms),
    ensures
        now_ms >= c.last_capture() + c.interval(),
{
}

} // verus!
