use openmediatransport::clock::{ticks_from_duration, TimestampClock, AUTO_TIMESTAMP, TICKS_PER_SECOND};

#[test]
fn durations_become_ticks() {
    assert_eq!(ticks_from_duration(1, 500_000_000), 15_000_000);
    assert_eq!(ticks_from_duration(0, 100), 1);
    assert_eq!(ticks_from_duration(2, 0), 20_000_000);
}

#[test]
fn explicit_timestamps_are_kept() {
    let mut c = TimestampClock::new(false);
    assert_eq!(c.resolve(1234, 30, 1, 0, 0), 1234);
    assert_eq!(c.resolve(99, 30, 1, 0, 0), 99);
}

#[test]
fn first_auto_timestamp_is_zero_then_advances_by_frame_interval() {
    let mut c = TimestampClock::new(false);
    assert_eq!(c.resolve(AUTO_TIMESTAMP, 30, 1, 0, 0), 0);
    // The presentation clock is ahead of a wall clock that has not moved.
    assert_eq!(c.advance(0, 0, 0), TICKS_PER_SECOND / 30);
    assert_eq!(c.advance(0, 0, 0), 2 * (TICKS_PER_SECOND / 30));
}

#[test]
fn late_frames_skip_ahead() {
    let mut c = TimestampClock::new(false);
    assert_eq!(c.resolve(AUTO_TIMESTAMP, 25, 1, 0, 0), 0);
    let interval = TICKS_PER_SECOND / 25;
    // One second late: the timestamp jumps forward with the wall clock.
    let ts = c.advance(TICKS_PER_SECOND, 0, 0);
    assert!(ts >= TICKS_PER_SECOND - interval);
    assert_eq!(ts % interval, 0);
}

#[test]
fn audio_interval_follows_block_size() {
    let mut c = TimestampClock::new(true);
    assert_eq!(c.resolve(AUTO_TIMESTAMP, 0, 0, 48_000, 480), 0);
    assert_eq!(c.advance(0, 48_000, 480), 100_000);
}
