//! The MP3 encoder of the `shine_rs` crate, as the rest of the library sees
//! it.
//!
//! Nothing in this module is proved. Each item states what the library
//! assumes of the encoder; everything else in the crate is verified against
//! these statements. The encoder has no clock, no randomness and no state
//! but its own: what it returns is named as a function of its settings and
//! of the samples it was given.

use crate::config::{EncoderConfig, StereoMode};
use shine_rs::{EncoderError, Mp3Encoder, Mp3EncoderConfig};
use vstd::prelude::*;

verus! {

/// The encoder: one instance produces the MP3 stream of one segment.
#[verifier::external_type_specification]
#[verifier::external_body]
pub struct ExMp3Encoder(shine_rs::Mp3Encoder);

/// The encoder's error.
#[verifier::external_type_specification]
#[verifier::external_body]
pub struct ExEncoderError(shine_rs::EncoderError);

/// Whether the encoder supports a configuration: whether
/// `Mp3EncoderConfig::validate` accepts these settings.
pub uninterp spec fn codec_supports(config: EncoderConfig) -> bool;

/// The PCM samples that an encoder has accepted since it was created, in
/// the order in which it accepted them.
pub uninterp spec fn encoder_consumed(enc: Mp3Encoder) -> Seq<i16>;

/// The settings with which an encoder was created.
pub uninterp spec fn encoder_settings(enc: Mp3Encoder) -> EncoderConfig;

/// The byte blocks that an encoder with the settings `config`, which has
/// accepted `consumed`, returns when it is given `pcm`: what
/// `Mp3Encoder::encode_interleaved` returns, or `None` where it fails. The
/// encoder reads nothing but its settings and the samples it was given.
pub uninterp spec fn codec_blocks(config: EncoderConfig, consumed: Seq<i16>, pcm: Seq<i16>) -> Option<
    Seq<Seq<u8>>,
>;

/// The bytes with which an encoder with the settings `config`, which has
/// accepted `consumed`, ends its stream: what `Mp3Encoder::finish` returns,
/// or `None` where it fails.
pub uninterp spec fn codec_tail(config: EncoderConfig, consumed: Seq<i16>) -> Option<Seq<u8>>;

/// The contents of byte blocks, block by block.
pub open spec fn block_views(blocks: Seq<Vec<u8>>) -> Seq<Seq<u8>> {
    Seq::new(blocks.len(), |i: int| blocks[i]@)
}

/// Trusted: `Mp3EncoderConfig::new`. The settings with which the encoder
/// crate starts a configuration: 44.1 kHz, 128 kbit/s, two channels in
/// stereo mode, not copyrighted, original.
#[verifier::external_body]
pub(crate) fn default_encoder_config() -> (config: EncoderConfig)
    ensures
        config == (EncoderConfig {
            sample_rate: 44100,
            bitrate: 128,
            channels: 2,
            stereo_mode: StereoMode::Stereo,
            copyright: false,
            original: true,
        }),
{
    let c = Mp3EncoderConfig::new();
    EncoderConfig {
        sample_rate: c.sample_rate,
        bitrate: c.bitrate,
        channels: c.channels,
        stereo_mode: match c.stereo_mode {
            shine_rs::StereoMode::Stereo => StereoMode::Stereo,
            shine_rs::StereoMode::JointStereo => StereoMode::JointStereo,
            shine_rs::StereoMode::DualChannel => StereoMode::DualChannel,
            shine_rs::StereoMode::Mono => StereoMode::Mono,
        },
        copyright: c.copyright,
        original: c.original,
    }
}

/// Trusted: `Mp3EncoderConfig::validate`. Whether the encoder accepts the
/// configuration depends on the configuration alone.
#[verifier::external_body]
pub(crate) fn codec_accepts(config: &EncoderConfig) -> (ok: bool)
    ensures
        ok == codec_supports(*config),
{
    let c = Mp3EncoderConfig {
        sample_rate: config.sample_rate,
        bitrate: config.bitrate,
        channels: config.channels,
        stereo_mode: match config.stereo_mode {
            StereoMode::Stereo => shine_rs::StereoMode::Stereo,
            StereoMode::JointStereo => shine_rs::StereoMode::JointStereo,
            StereoMode::DualChannel => shine_rs::StereoMode::DualChannel,
            StereoMode::Mono => shine_rs::StereoMode::Mono,
        },
        copyright: config.copyright,
        original: config.original,
    };
    c.validate().is_ok()
}

/// Trusted: `Mp3Encoder::new`. It validates the settings first and fails
/// where `validate` does and nowhere else. A new encoder has its settings
/// and has accepted no sample yet.
#[verifier::external_body]
pub(crate) fn start_encoder(config: &EncoderConfig) -> (r: Result<Mp3Encoder, EncoderError>)
    ensures
        r is Ok <==> codec_supports(*config),
        r matches Ok(enc) ==> encoder_consumed(enc) == Seq::<i16>::empty(),
        r matches Ok(enc) ==> encoder_settings(enc) == *config,
{
    Mp3Encoder::new(Mp3EncoderConfig {
        sample_rate: config.sample_rate,
        bitrate: config.bitrate,
        channels: config.channels,
        stereo_mode: match config.stereo_mode {
            StereoMode::Stereo => shine_rs::StereoMode::Stereo,
            StereoMode::JointStereo => shine_rs::StereoMode::JointStereo,
            StereoMode::DualChannel => shine_rs::StereoMode::DualChannel,
            StereoMode::Mono => shine_rs::StereoMode::Mono,
        },
        copyright: config.copyright,
        original: config.original,
    })
}

/// Trusted: `Mp3Encoder::encode_interleaved`. The encoder keeps its
/// settings. When the call succeeds the encoder has accepted the whole of
/// `pcm` after what it had accepted before. The byte blocks that it
/// returns are the MP3 frames that became complete; whether it succeeds
/// and what it returns depend on its settings, on what it had accepted and
/// on `pcm` alone.
#[verifier::external_body]
pub(crate) fn encode_pcm(enc: &mut Mp3Encoder, pcm: &Vec<i16>) -> (r: Result<
    Vec<Vec<u8>>,
    EncoderError,
>)
    ensures
        encoder_settings(*final(enc)) == encoder_settings(*old(enc)),
        r is Ok ==> encoder_consumed(*final(enc)) == encoder_consumed(*old(enc)) + pcm@,
        match r {
            Ok(blocks) => codec_blocks(
                encoder_settings(*old(enc)),
                encoder_consumed(*old(enc)),
                pcm@,
            ) == Some(block_views(blocks@)),
            Err(_) => codec_blocks(
                encoder_settings(*old(enc)),
                encoder_consumed(*old(enc)),
                pcm@,
            ) is None,
        },
{
    enc.encode_interleaved(pcm)
}

/// Trusted: `Mp3Encoder::finish`. Pads the last partial MP3 frame, flushes
/// the encoder and returns the bytes that end its stream; whether it
/// succeeds and what it returns depend on the encoder's settings and on
/// what it had accepted alone.
#[verifier::external_body]
pub(crate) fn finish_encoder(enc: Mp3Encoder) -> (r: Result<Vec<u8>, EncoderError>)
    ensures
        match r {
            Ok(tail) => codec_tail(encoder_settings(enc), encoder_consumed(enc)) == Some(tail@),
            Err(_) => codec_tail(encoder_settings(enc), encoder_consumed(enc)) is None,
        },
{
    let mut enc = enc;
    enc.finish()
}

/// Trusted: the `Display` text of an `EncoderError`.
#[verifier::external_body]
pub(crate) fn error_text(e: &EncoderError) -> String {
    e.to_string()
}

} // verus!
