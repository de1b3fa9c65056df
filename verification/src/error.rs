//! Error types of the library.

use vstd::prelude::*;
use vstd::string::StringExecFns;

verus! {

/// Why a writer could not be constructed.
#[derive(Debug, Clone, Copy, PartialEq, Eq, Structural)]
pub enum ConfigError {
    /// The channel count is neither 1 nor 2.
    InvalidChannels,
    /// The sample rate is zero.
    InvalidSampleRate,
    /// The encoder does not support this combination of sample rate,
    /// bitrate, channel count and stereo mode.
    UnsupportedEncoding,
    /// The segment duration is shorter than one sample period.
    DurationTooShort,
    /// The segment duration holds more frames than a `u64` can count.
    DurationTooLong,
    /// The concurrency limit is zero: no job could ever start.
    NoConcurrency,
}

impl ConfigError {
    /// The error in words.
    pub open spec fn text(self) -> Seq<char> {
        match self {
            ConfigError::InvalidChannels => "only 1 or 2 channels supported"@,
            ConfigError::InvalidSampleRate => "sample rate must be positive"@,
            ConfigError::UnsupportedEncoding => "invalid MP3 encoder config"@,
            ConfigError::DurationTooShort => "segment duration too small"@,
            ConfigError::DurationTooLong => "segment duration too large"@,
            ConfigError::NoConcurrency => "concurrency must be positive"@,
        }
    }

    /// The error in words.
    pub fn message(&self) -> (text: &'static str)
        ensures
            text@ == self.text(),
    {
        match self {
            ConfigError::InvalidChannels => "only 1 or 2 channels supported",
            ConfigError::InvalidSampleRate => "sample rate must be positive",
            ConfigError::UnsupportedEncoding => "invalid MP3 encoder config",
            ConfigError::DurationTooShort => "segment duration too small",
            ConfigError::DurationTooLong => "segment duration too large",
            ConfigError::NoConcurrency => "concurrency must be positive",
        }
    }
}

/// What is wrong with the input.
#[derive(Debug, Clone, Copy, PartialEq, Eq, Structural)]
pub enum InputError {
    /// The text unit at this position is empty.
    EmptyText { position: usize },
}

/// Why the segmented writer could not go on.
#[derive(Debug, Clone, PartialEq, Eq)]
pub enum WriterError {
    /// The buffer does not hold a whole number of frames.
    PartialFrame,
    /// A mono buffer was written to a writer with two channels.
    NotMono,
    /// Every segment index has been used.
    SegmentsExhausted,
    /// The encoder of a new segment could not be created. A writer does
    /// not report this: it accepts only settings that the encoder supports.
    StartFailed { reason: String },
    /// The encoder rejected PCM data.
    EncodeFailed { reason: String },
    /// The encoder could not finish its stream.
    FinishFailed { reason: String },
}

impl WriterError {
    /// The error in words: what failed and, where the encoder gave one,
    /// its reason.
    pub open spec fn text(self) -> Seq<char> {
        match self {
            WriterError::PartialFrame => "interleaved buffer length must be a multiple of channels"@,
            WriterError::NotMono => "config.channels must be 1 for mono"@,
            WriterError::SegmentsExhausted => "no segment index is left"@,
            WriterError::StartFailed { reason } => "create mp3 encoder: "@ + reason@,
            WriterError::EncodeFailed { reason } => "mp3 encode_interleaved failed: "@ + reason@,
            WriterError::FinishFailed { reason } => "mp3 encoder finish failed: "@ + reason@,
        }
    }

    /// The error in words.
    pub fn message(&self) -> (text: String)
        ensures
            text@ == self.text(),
    {
        match self {
            WriterError::PartialFrame => String::from_str(
                "interleaved buffer length must be a multiple of channels",
            ),
            WriterError::NotMono => String::from_str("config.channels must be 1 for mono"),
            WriterError::SegmentsExhausted => String::from_str("no segment index is left"),
            WriterError::StartFailed { reason } => {
                let mut text = String::from_str("create mp3 encoder: ");
                text.append(reason.as_str());
                text
            },
            WriterError::EncodeFailed { reason } => {
                let mut text = String::from_str("mp3 encode_interleaved failed: ");
                text.append(reason.as_str());
                text
            },
            WriterError::FinishFailed { reason } => {
                let mut text = String::from_str("mp3 encoder finish failed: ");
                text.append(reason.as_str());
                text
            },
        }
    }
}

/// Why the run for one input stopped.
#[derive(Debug, Clone, PartialEq, Eq)]
pub enum PipelineError {
    /// The job at `position` failed; nothing of it or of a later job is
    /// written.
    Synthesis { position: usize, reason: String },
    /// A result came for a position that is no job of this run.
    UnknownPosition { position: usize },
    /// A second result came for a position.
    DuplicatePosition { position: usize },
    /// A job that was not running is said to have finished.
    NotRunning { position: usize },
    /// All results are in, but none came for `position`.
    MissingPosition { position: usize },
    /// The writer failed.
    Writer { error: WriterError },
}

} // verus!
