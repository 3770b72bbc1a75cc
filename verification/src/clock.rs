//! The broadcast clock: accumulates a monotonic elapsed-time value from
//! reference-clock samples, correcting for forward wraparound of the
//! 33-bit clock base. A backward jump of the source clock is treated as
//! a large forward jump.

use vstd::prelude::*;
use crate::packet::MPEGTS_TIMESTAMP_CLOCKS;

verus! {

/// The elapsed-tick contribution of one sample `cur` following a previous
/// sample `prev`: `(cur - prev + 2^33) mod 2^33`, which is never negative.
pub open spec fn clock_delta(prev: u64, cur: u64) -> int {
    ((cur as int) - (prev as int) + (MPEGTS_TIMESTAMP_CLOCKS as int)) % (
    MPEGTS_TIMESTAMP_CLOCKS as int)
}

/// The delta is non-negative and below the rollover modulus, for any pair
/// of samples below the modulus; in particular this holds when the current
/// sample is smaller than the previous one (a rollover).
pub proof fn lemma_clock_delta_in_range(prev: u64, cur: u64)
    requires
        prev < MPEGTS_TIMESTAMP_CLOCKS,
        cur < MPEGTS_TIMESTAMP_CLOCKS,
    ensures
        0 <= clock_delta(prev, cur) < MPEGTS_TIMESTAMP_CLOCKS,
        cur >= prev ==> clock_delta(prev, cur) == cur - prev,
        cur < prev ==> clock_delta(prev, cur) == cur - prev + MPEGTS_TIMESTAMP_CLOCKS,
{
    let m = MPEGTS_TIMESTAMP_CLOCKS as int;
    let v = (cur as int) - (prev as int) + m;
    if cur >= prev {
        vstd::arithmetic::div_mod::lemma_mod_sub_multiples_vanish(v, m);
        vstd::arithmetic::div_mod::lemma_small_mod((cur - prev) as nat, m as nat);
        assert(-m + v == cur - prev);
    } else {
        vstd::arithmetic::div_mod::lemma_small_mod(v as nat, m as nat);
    }
}

/// What one call of `ClockTracker::advance` adds to the elapsed counter:
/// zero for the first sample ever seen, the wraparound-corrected delta
/// otherwise.
pub open spec fn advance_delta(previous: Option<u64>, sample: u64) -> int {
    match previous {
        None => 0,
        Some(prev) => clock_delta(prev, sample),
    }
}

/// Accumulates elapsed clock ticks across one streaming pass.
pub struct ClockTracker {
    pub previous: Option<u64>,
    pub elapsed: u64,
}

impl ClockTracker {
    pub open spec fn wf(self) -> bool {
        match self.previous {
            None => true,
            Some(p) => p < MPEGTS_TIMESTAMP_CLOCKS,
        }
    }

    pub fn new() -> (r: ClockTracker)
        ensures
            r.wf(),
            r.previous is None,
            r.elapsed == 0,
    {
        ClockTracker { previous: None, elapsed: 0 }
    }

    /// Feeds one reference-clock sample. The elapsed counter grows by
    /// `(sample - previous + 2^33) mod 2^33` (zero for the very first
    /// sample), wrapping at the 64-bit boundary.
    pub fn advance(&mut self, sample: u64)
        requires
            old(self).wf(),
            sample < MPEGTS_TIMESTAMP_CLOCKS,
        ensures
            final(self).wf(),
            final(self).previous == Some(sample),
            old(self).elapsed + advance_delta(old(self).previous, sample) <= u64::MAX
                ==> final(self).elapsed == old(self).elapsed + advance_delta(
                old(self).previous,
                sample,
            ),
            old(self).elapsed + advance_delta(old(self).previous, sample) > u64::MAX
                ==> final(self).elapsed == old(self).elapsed + advance_delta(
                old(self).previous,
                sample,
            ) - 0x10000000000000000,
    {
        let prev = match self.previous {
            Some(p) => p,
            None => sample,
        };
        proof {
            lemma_clock_delta_in_range(prev, sample);
            if old(self).previous is None {
                lemma_clock_delta_in_range(sample, sample);
            }
        }
        let delta = (sample + MPEGTS_TIMESTAMP_CLOCKS - prev) % MPEGTS_TIMESTAMP_CLOCKS;
        self.elapsed = self.elapsed.wrapping_add(delta);
        self.previous = Some(sample);
    }
}

} // verus!
