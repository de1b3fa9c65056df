//! Segment capacity: how many PCM frames fit into a segment of a given
//! duration.

use crate::error::ConfigError;
use std::time::Duration;
use vstd::arithmetic::div_mod::lemma_div_is_ordered;
use vstd::prelude::*;

verus! {

/// Nanoseconds in one second.
pub const NANOS_PER_SECOND: u128 = 1_000_000_000;

/// The largest number of nanoseconds a `Duration` can hold:
/// `u64::MAX` seconds and 999,999,999 nanoseconds.
pub open spec fn max_duration_nanos() -> nat {
    (u64::MAX as nat) * 1_000_000_000 + 999_999_999
}

/// The length of a duration in whole nanoseconds: what `Duration::as_nanos`
/// returns for it.
pub uninterp spec fn duration_nanos(d: Duration) -> nat;

/// Trusted: `Duration::as_nanos`. The call returns the total number of
/// nanoseconds of the duration, which is at most that of `Duration::MAX`.
#[verifier::external_body]
fn nanos_of(d: &Duration) -> (n: u128)
    ensures
        n == duration_nanos(*d),
        n <= max_duration_nanos(),
{
    d.as_nanos()
}

/// Whole frames (samples per channel) played in `nanos` nanoseconds at
/// `sample_rate` frames per second, rounded down.
pub open spec fn frames_in(sample_rate: nat, nanos: nat) -> nat {
    (nanos * sample_rate) / 1_000_000_000
}

/// The capacity that a duration of `nanos` nanoseconds gives, or the reason
/// why it gives none.
pub open spec fn capacity_of(sample_rate: nat, nanos: nat) -> Result<u64, ConfigError> {
    let frames = frames_in(sample_rate, nanos);
    if frames == 0 {
        Err(ConfigError::DurationTooShort)
    } else if frames > u64::MAX {
        Err(ConfigError::DurationTooLong)
    } else {
        Ok(frames as u64)
    }
}

/// Number of PCM frames in `nanos` nanoseconds of audio at `sample_rate`.
///
/// The count is rounded down. A duration that holds no whole frame is
/// rejected, and so is one whose count does not fit a `u64`.
pub fn frames_for_nanos(sample_rate: u32, nanos: u128) -> (r: Result<u64, ConfigError>)
    ensures
        r == capacity_of(sample_rate as nat, nanos as nat),
{
    let rate: u128 = sample_rate as u128;
    match nanos.checked_mul(rate) {
        Some(scaled) => {
            let frames: u128 = scaled / NANOS_PER_SECOND;
            if frames == 0 {
                Err(ConfigError::DurationTooShort)
            } else if frames > u64::MAX as u128 {
                Err(ConfigError::DurationTooLong)
            } else {
                Ok(frames as u64)
            }
        },
        None => {
            proof {
                let product: int = nanos as int * rate as int;
                assert(product > u128::MAX as int);
                lemma_div_is_ordered(u128::MAX as int, product, 1_000_000_000);
                assert((u128::MAX as int) / 1_000_000_000 > u64::MAX as int);
            }
            Err(ConfigError::DurationTooLong)
        },
    }
}

/// Number of PCM frames in a segment of duration `d` at `sample_rate`.
///
/// Uses floor; fails if the duration is too small for at least one frame.
pub fn frames_for_duration(sample_rate: u32, d: Duration) -> (r: Result<u64, ConfigError>)
    ensures
        r == capacity_of(sample_rate as nat, duration_nanos(d)),
{
    let nanos: u128 = nanos_of(&d);
    frames_for_nanos(sample_rate, nanos)
}

} // verus!
