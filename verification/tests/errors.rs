use txt2mp3::error::{ConfigError, WriterError};

#[test]
fn config_errors_say_what_is_wrong() {
    assert_eq!(ConfigError::InvalidChannels.message(), "only 1 or 2 channels supported");
    assert_eq!(ConfigError::InvalidSampleRate.message(), "sample rate must be positive");
    assert_eq!(ConfigError::UnsupportedEncoding.message(), "invalid MP3 encoder config");
    assert_eq!(ConfigError::DurationTooShort.message(), "segment duration too small");
    assert_eq!(ConfigError::DurationTooLong.message(), "segment duration too large");
    assert_eq!(ConfigError::NoConcurrency.message(), "concurrency must be positive");
}

#[test]
fn writer_errors_say_what_failed_and_why() {
    assert_eq!(
        WriterError::PartialFrame.message(),
        "interleaved buffer length must be a multiple of channels"
    );
    assert_eq!(WriterError::NotMono.message(), "config.channels must be 1 for mono");
    assert_eq!(WriterError::SegmentsExhausted.message(), "no segment index is left");
    assert_eq!(
        WriterError::StartFailed { reason: "bad rate".to_string() }.message(),
        "create mp3 encoder: bad rate"
    );
    assert_eq!(
        WriterError::EncodeFailed { reason: "overflow".to_string() }.message(),
        "mp3 encode_interleaved failed: overflow"
    );
    assert_eq!(
        WriterError::FinishFailed { reason: "".to_string() }.message(),
        "mp3 encoder finish failed: "
    );
}
