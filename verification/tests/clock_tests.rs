use metamux::clock::ClockTracker;
use metamux::packet::MPEGTS_TIMESTAMP_CLOCKS;

#[test]
fn first_sample_contributes_zero() {
    let mut c = ClockTracker::new();
    c.advance(123456);
    assert_eq!(c.elapsed, 0);
    assert_eq!(c.previous, Some(123456));
}

#[test]
fn forward_samples_accumulate() {
    let mut c = ClockTracker::new();
    c.advance(1000);
    c.advance(91000);
    assert_eq!(c.elapsed, 90000);
    c.advance(91000);
    assert_eq!(c.elapsed, 90000);
    c.advance(92000);
    assert_eq!(c.elapsed, 91000);
}

#[test]
fn wraparound_delta_is_modular_and_never_negative() {
    // current < previous simulates a rollover of the 33-bit clock
    let mut c = ClockTracker::new();
    let prev = MPEGTS_TIMESTAMP_CLOCKS - 10;
    c.advance(prev);
    c.advance(5);
    // (5 - (2^33 - 10) + 2^33) mod 2^33 = 15
    assert_eq!(c.elapsed, 15);
}

#[test]
fn backward_jump_reads_as_large_forward_jump() {
    let mut c = ClockTracker::new();
    c.advance(1000);
    c.advance(999);
    assert_eq!(c.elapsed, MPEGTS_TIMESTAMP_CLOCKS - 1);
}
