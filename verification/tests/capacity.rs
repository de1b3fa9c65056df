use std::time::Duration;
use txt2mp3::capacity::{frames_for_duration, frames_for_nanos};
use txt2mp3::error::ConfigError;

#[test]
fn two_hours_at_24khz() {
    assert_eq!(frames_for_duration(24_000, Duration::from_secs(7200)), Ok(172_800_000));
}

#[test]
fn capacity_rounds_down() {
    // 1.5 frames at 1 Hz.
    assert_eq!(frames_for_nanos(1, 1_500_000_000), Ok(1));
    // 100.000008 frames.
    assert_eq!(frames_for_duration(24_000, Duration::from_nanos(4_166_667)), Ok(100));
    // 99.99998 frames.
    assert_eq!(frames_for_duration(24_000, Duration::from_nanos(4_166_666)), Ok(99));
}

#[test]
fn duration_below_one_sample_period_is_rejected() {
    assert_eq!(frames_for_duration(24_000, Duration::from_nanos(41_666)), Err(ConfigError::DurationTooShort));
    assert_eq!(frames_for_duration(24_000, Duration::from_nanos(41_667)), Ok(1));
    assert_eq!(frames_for_duration(24_000, Duration::ZERO), Err(ConfigError::DurationTooShort));
    assert_eq!(frames_for_duration(0, Duration::from_secs(10)), Err(ConfigError::DurationTooShort));
}

#[test]
fn duration_beyond_the_frame_counter_is_rejected() {
    assert_eq!(frames_for_duration(24_000, Duration::MAX), Err(ConfigError::DurationTooLong));
    assert_eq!(frames_for_duration(1, Duration::MAX), Ok(u64::MAX));
    assert_eq!(frames_for_duration(2, Duration::MAX), Err(ConfigError::DurationTooLong));
    assert_eq!(frames_for_nanos(u32::MAX, u128::MAX), Err(ConfigError::DurationTooLong));
}

#[test]
fn duration_wrapper_reads_the_whole_span() {
    // Seconds and nanoseconds both count.
    assert_eq!(
        frames_for_duration(1_000_000_000, Duration::new(3, 17)),
        Ok(3_000_000_017)
    );
}
