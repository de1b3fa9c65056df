//! Encoder settings.

use vstd::prelude::*;

verus! {

/// Sample rate of the synthesised speech, in Hz.
pub const SAMPLE_RATE: u32 = 24_000;

/// Channel count of the synthesised speech.
pub const CHANNELS: u8 = 1;

/// How the channels of a frame are stored in the MP3 stream.
#[derive(Debug, Clone, Copy, PartialEq, Eq, Structural)]
pub enum StereoMode {
    Stereo,
    JointStereo,
    DualChannel,
    Mono,
}

/// Settings of the MP3 encoder.
#[derive(Debug, Clone, Copy, PartialEq, Eq, Structural)]
pub struct EncoderConfig {
    /// Sample rate in Hz.
    pub sample_rate: u32,
    /// Bitrate in kbit/s.
    pub bitrate: u32,
    /// Number of interleaved channels.
    pub channels: u8,
    /// Stereo mode; it has to agree with `channels`.
    pub stereo_mode: StereoMode,
    /// Copyright flag of the stream.
    pub copyright: bool,
    /// Original flag of the stream.
    pub original: bool,
}

} // verus!
