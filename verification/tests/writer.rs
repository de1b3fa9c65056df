use std::time::Duration;
use txt2mp3::config::{EncoderConfig, StereoMode, CHANNELS, SAMPLE_RATE};
use txt2mp3::error::{ConfigError, WriterError};
use txt2mp3::journal::{append_blocks, append_tail, SegmentOp};
use txt2mp3::writer::{check_config, convert_samples, default_mono_24k_config, Mp3Splitter};

/// A writer of 24 kHz mono whose segments hold `capacity` frames.
fn writer_with_capacity(capacity: u64) -> Mp3Splitter {
    let nanos = (capacity * 1_000_000_000 + 23_999) / 24_000;
    let writer =
        Mp3Splitter::new("out/audio".to_string(), default_mono_24k_config(64), Duration::from_nanos(nanos))
            .unwrap();
    assert_eq!(writer.capacity_frames(), capacity);
    writer
}

/// `n` samples of a 440 Hz tone, as bit patterns.
fn tone(n: usize) -> Vec<u32> {
    (0..n)
        .map(|i| (0.5 * (2.0 * std::f32::consts::PI * 440.0 * i as f32 / 24_000.0).sin()).to_bits())
        .collect()
}

fn created(journal: &[SegmentOp]) -> Vec<String> {
    journal
        .iter()
        .filter_map(|op| match op {
            SegmentOp::Create { path } => Some(path.clone()),
            _ => None,
        })
        .collect()
}

fn closes(journal: &[SegmentOp]) -> usize {
    journal.iter().filter(|op| matches!(op, SegmentOp::Close)).count()
}

/// Replays a journal: the bytes of each file, in the order of creation.
fn files(journal: &[SegmentOp]) -> Vec<(String, Vec<u8>)> {
    let mut done: Vec<(String, Vec<u8>)> = Vec::new();
    let mut open = false;
    for op in journal {
        match op {
            SegmentOp::Create { path } => {
                assert!(!open, "a file is created while another is open");
                done.push((path.clone(), Vec::new()));
                open = true;
            }
            SegmentOp::Append { bytes } => {
                assert!(open, "bytes are appended while no file is open");
                assert!(!bytes.is_empty());
                done.last_mut().unwrap().1.extend_from_slice(bytes);
            }
            SegmentOp::Close => {
                assert!(open, "a file is closed while none is open");
                open = false;
            }
        }
    }
    done
}

#[test]
fn default_config_is_24khz_mono() {
    assert_eq!(
        default_mono_24k_config(64),
        EncoderConfig {
            sample_rate: 24_000,
            bitrate: 64,
            channels: 1,
            stereo_mode: StereoMode::Mono,
            copyright: false,
            original: true,
        }
    );
    assert_eq!(default_mono_24k_config(32).bitrate, 32);
    assert_eq!(SAMPLE_RATE, 24_000);
    assert_eq!(CHANNELS, 1);
}

#[test]
fn new_writer_has_created_nothing() {
    let writer = writer_with_capacity(100);
    assert_eq!(writer.segment_count(), 0);
    assert_eq!(writer.frames_written(), 0);
    assert!(!writer.is_open());
    let two_hours =
        Mp3Splitter::new("p".to_string(), default_mono_24k_config(64), Duration::from_secs(7200))
            .unwrap();
    assert_eq!(two_hours.capacity_frames(), 172_800_000);
}

#[test]
fn invalid_channel_count_is_a_config_error() {
    let mut config = default_mono_24k_config(64);
    config.channels = 0;
    let r = Mp3Splitter::new("p".to_string(), config, Duration::from_secs(1));
    assert!(matches!(r, Err(ConfigError::InvalidChannels)));
    config.channels = 3;
    let r = Mp3Splitter::new("p".to_string(), config, Duration::from_secs(1));
    assert!(matches!(r, Err(ConfigError::InvalidChannels)));
}

#[test]
fn zero_sample_rate_is_a_config_error() {
    let mut config = default_mono_24k_config(64);
    config.sample_rate = 0;
    let r = Mp3Splitter::new("p".to_string(), config, Duration::from_secs(1));
    assert!(matches!(r, Err(ConfigError::InvalidSampleRate)));
}

#[test]
fn settings_that_the_encoder_refuses_are_a_config_error() {
    // No such bitrate.
    let r = Mp3Splitter::new("p".to_string(), default_mono_24k_config(65), Duration::from_secs(1));
    assert!(matches!(r, Err(ConfigError::UnsupportedEncoding)));
    // Too high a bitrate for 24 kHz.
    let r = Mp3Splitter::new("p".to_string(), default_mono_24k_config(320), Duration::from_secs(1));
    assert!(matches!(r, Err(ConfigError::UnsupportedEncoding)));
    // No such sample rate.
    let mut config = default_mono_24k_config(64);
    config.sample_rate = 23_000;
    let r = Mp3Splitter::new("p".to_string(), config, Duration::from_secs(1));
    assert!(matches!(r, Err(ConfigError::UnsupportedEncoding)));
    // Stereo mode and channel count disagree.
    let mut config = default_mono_24k_config(64);
    config.stereo_mode = StereoMode::Stereo;
    let r = Mp3Splitter::new("p".to_string(), config, Duration::from_secs(1));
    assert!(matches!(r, Err(ConfigError::UnsupportedEncoding)));
}

#[test]
fn config_check_on_given_answers_of_the_encoder() {
    let config = default_mono_24k_config(64);
    assert_eq!(check_config(&config, true), Ok(()));
    assert_eq!(check_config(&config, false), Err(ConfigError::UnsupportedEncoding));
    let mut bad = config;
    bad.channels = 5;
    assert_eq!(check_config(&bad, true), Err(ConfigError::InvalidChannels));
    bad.sample_rate = 0;
    assert_eq!(check_config(&bad, false), Err(ConfigError::InvalidChannels));
    let mut silent = config;
    silent.sample_rate = 0;
    assert_eq!(check_config(&silent, true), Err(ConfigError::InvalidSampleRate));
}

#[test]
fn segment_shorter_than_one_sample_is_a_config_error() {
    let r = Mp3Splitter::new("p".to_string(), default_mono_24k_config(64), Duration::from_nanos(41_666));
    assert!(matches!(r, Err(ConfigError::DurationTooShort)));
    let r = Mp3Splitter::new("p".to_string(), default_mono_24k_config(64), Duration::ZERO);
    assert!(matches!(r, Err(ConfigError::DurationTooShort)));
    let r = Mp3Splitter::new("p".to_string(), default_mono_24k_config(64), Duration::MAX);
    assert!(matches!(r, Err(ConfigError::DurationTooLong)));
}

#[test]
fn config_is_checked_before_the_duration() {
    let mut config = default_mono_24k_config(64);
    config.channels = 7;
    let r = Mp3Splitter::new("p".to_string(), config, Duration::ZERO);
    assert!(matches!(r, Err(ConfigError::InvalidChannels)));
}

#[test]
fn three_calls_of_40_70_30_frames_with_capacity_100() {
    let mut writer = writer_with_capacity(100);
    let mut journal = Vec::new();
    let samples = tone(140);

    assert_eq!(writer.write_f32_mono(&samples[..40], &mut journal), Ok(()));
    assert_eq!(writer.segment_count(), 1);
    assert_eq!(writer.frames_written(), 40);
    assert_eq!(created(&journal), vec!["out/audio_000.mp3"]);
    assert_eq!(closes(&journal), 0);

    // 60 frames fill segment 0, the other 10 open segment 1.
    assert_eq!(writer.write_f32_mono(&samples[40..110], &mut journal), Ok(()));
    assert_eq!(writer.segment_count(), 2);
    assert_eq!(writer.frames_written(), 10);
    assert_eq!(created(&journal), vec!["out/audio_000.mp3", "out/audio_001.mp3"]);
    assert_eq!(closes(&journal), 1);

    assert_eq!(writer.write_f32_mono(&samples[110..], &mut journal), Ok(()));
    assert_eq!(writer.segment_count(), 2);
    assert_eq!(writer.frames_written(), 40);
    assert!(writer.is_open());

    assert_eq!(writer.finalize(&mut journal), Ok(()));
    assert_eq!(created(&journal), vec!["out/audio_000.mp3", "out/audio_001.mp3"]);
    assert_eq!(closes(&journal), 2);
    let files = files(&journal);
    assert_eq!(files.len(), 2);
    assert!(!files[0].1.is_empty());
    assert!(!files[1].1.is_empty());
}

#[test]
fn call_boundaries_do_not_move_segment_boundaries() {
    let samples = tone(140);
    let mut whole = writer_with_capacity(100);
    let mut whole_journal = Vec::new();
    assert_eq!(whole.write_f32_mono(&samples, &mut whole_journal), Ok(()));
    assert_eq!(whole.segment_count(), 2);
    assert_eq!(whole.frames_written(), 40);
    assert_eq!(whole.finalize(&mut whole_journal), Ok(()));

    let mut cut = writer_with_capacity(100);
    let mut cut_journal = Vec::new();
    assert_eq!(cut.write_f32_mono(&samples[..40], &mut cut_journal), Ok(()));
    assert_eq!(cut.write_f32_mono(&samples[40..110], &mut cut_journal), Ok(()));
    assert_eq!(cut.write_f32_mono(&samples[110..], &mut cut_journal), Ok(()));
    assert_eq!(cut.finalize(&mut cut_journal), Ok(()));

    // The same files with the same bytes.
    assert_eq!(files(&whole_journal), files(&cut_journal));
}

#[test]
fn segment_count_is_frames_over_capacity_rounded_up() {
    for (frames, capacity, segments, last) in [
        (1usize, 100u64, 1u32, 1u64),
        (99, 100, 1, 99),
        (100, 100, 1, 100),
        (101, 100, 2, 1),
        (250, 100, 3, 50),
        (300, 100, 3, 100),
        (7, 1, 7, 1),
        (1200, 577, 3, 46),
    ] {
        let mut writer = writer_with_capacity(capacity);
        let mut journal = Vec::new();
        assert_eq!(writer.write_f32_mono(&tone(frames), &mut journal), Ok(()));
        assert_eq!(writer.segment_count(), segments, "{frames} frames, capacity {capacity}");
        assert_eq!(writer.frames_written(), last);
        assert!(writer.frames_written() <= writer.capacity_frames());
        assert_eq!(writer.finalize(&mut journal), Ok(()));
        assert_eq!(created(&journal).len(), segments as usize);
        assert_eq!(closes(&journal), segments as usize);
        assert_eq!(files(&journal).len(), segments as usize);
    }
}

#[test]
fn full_segment_rotates_only_when_more_frames_come() {
    let mut writer = writer_with_capacity(100);
    let mut journal = Vec::new();
    assert_eq!(writer.write_f32_mono(&tone(100), &mut journal), Ok(()));
    assert_eq!(writer.segment_count(), 1);
    assert_eq!(writer.frames_written(), 100);
    assert_eq!(closes(&journal), 0);
    // An empty buffer brings no frame: still no rotation.
    assert_eq!(writer.write_f32_mono(&[], &mut journal), Ok(()));
    assert_eq!(writer.segment_count(), 1);
    assert_eq!(closes(&journal), 0);
    // One more frame: segment 0 is closed first.
    assert_eq!(writer.write_f32_mono(&tone(1), &mut journal), Ok(()));
    assert_eq!(writer.segment_count(), 2);
    assert_eq!(writer.frames_written(), 1);
    assert_eq!(closes(&journal), 1);
    assert_eq!(created(&journal), vec!["out/audio_000.mp3", "out/audio_001.mp3"]);
}

#[test]
fn first_write_opens_segment_zero_even_without_frames() {
    let mut writer = writer_with_capacity(100);
    let mut journal = Vec::new();
    assert_eq!(writer.write_f32_mono(&[], &mut journal), Ok(()));
    assert!(writer.is_open());
    assert_eq!(writer.segment_count(), 1);
    assert_eq!(writer.frames_written(), 0);
    assert_eq!(journal, vec![SegmentOp::Create { path: "out/audio_000.mp3".to_string() }]);
}

#[test]
fn finalize_without_a_write_does_nothing() {
    let writer = writer_with_capacity(100);
    let mut journal = Vec::new();
    assert_eq!(writer.finalize(&mut journal), Ok(()));
    assert!(journal.is_empty());
}

#[test]
fn finalize_appends_the_tail_once_and_closes() {
    let mut writer = writer_with_capacity(10_000);
    let mut journal = Vec::new();
    assert_eq!(writer.write_f32_mono(&tone(700), &mut journal), Ok(()));
    let before = journal.len();
    assert_eq!(writer.finalize(&mut journal), Ok(()));
    // The padded last frame and the close.
    assert_eq!(journal.len(), before + 2);
    assert!(matches!(journal[before], SegmentOp::Append { .. }));
    assert_eq!(journal[before + 1], SegmentOp::Close);
    assert_eq!(closes(&journal), 1);
}

#[test]
fn encoder_output_is_appended_as_mp3_frames() {
    let mut writer = writer_with_capacity(1_000_000);
    let mut journal = Vec::new();
    assert_eq!(writer.write_f32_mono(&tone(24_000), &mut journal), Ok(()));
    // 24000 samples are 41 whole MP3 frames of 576 samples.
    let appended: Vec<&Vec<u8>> = journal
        .iter()
        .filter_map(|op| match op {
            SegmentOp::Append { bytes } => Some(bytes),
            _ => None,
        })
        .collect();
    assert_eq!(appended.len(), 41);
    for bytes in &appended {
        assert_eq!(bytes[0], 0xff);
        assert_eq!(bytes[1] & 0xe0, 0xe0);
    }
    assert_eq!(writer.finalize(&mut journal), Ok(()));
    let files = files(&journal);
    assert_eq!(files.len(), 1);
    // One second at 64 kbit/s is about 8000 bytes.
    assert!(files[0].1.len() > 7_000 && files[0].1.len() < 9_000, "{}", files[0].1.len());
}

#[test]
fn every_segment_is_a_stream_of_its_own() {
    // Two segments of one second each hold the same audio twice.
    let mut writer = writer_with_capacity(24_000);
    let mut journal = Vec::new();
    let second = tone(24_000);
    let mut twice = second.clone();
    twice.extend_from_slice(&second);
    assert_eq!(writer.write_f32_mono(&twice, &mut journal), Ok(()));
    assert_eq!(writer.finalize(&mut journal), Ok(()));
    let files = files(&journal);
    assert_eq!(files.len(), 2);
    assert_eq!(files[0].0, "out/audio_000.mp3");
    assert_eq!(files[1].0, "out/audio_001.mp3");
    assert_eq!(files[0].1, files[1].1);
}

#[test]
fn partial_frame_is_turned_down() {
    let config = EncoderConfig {
        sample_rate: 44_100,
        bitrate: 128,
        channels: 2,
        stereo_mode: StereoMode::Stereo,
        copyright: false,
        original: true,
    };
    let mut writer = Mp3Splitter::new("st".to_string(), config, Duration::from_secs(1)).unwrap();
    assert_eq!(writer.capacity_frames(), 44_100);
    let mut journal = Vec::new();
    assert_eq!(
        writer.write_f32_interleaved(&tone(3), &mut journal),
        Err(WriterError::PartialFrame)
    );
    assert!(journal.is_empty());
    assert!(!writer.is_open());
    assert_eq!(writer.segment_count(), 0);
    // Two samples are one frame.
    assert_eq!(writer.write_f32_interleaved(&tone(2), &mut journal), Ok(()));
    assert_eq!(writer.frames_written(), 1);
    assert_eq!(writer.write_f32_interleaved(&tone(5), &mut journal), Err(WriterError::PartialFrame));
    assert_eq!(writer.frames_written(), 1);
}

#[test]
fn stereo_frames_count_once_per_pair() {
    let config = EncoderConfig {
        sample_rate: 44_100,
        bitrate: 128,
        channels: 2,
        stereo_mode: StereoMode::JointStereo,
        copyright: true,
        original: false,
    };
    let mut writer =
        Mp3Splitter::new("st".to_string(), config, Duration::from_nanos(22_676)).unwrap();
    assert_eq!(writer.capacity_frames(), 1);
    let mut journal = Vec::new();
    assert_eq!(writer.write_f32_interleaved(&tone(6), &mut journal), Ok(()));
    assert_eq!(writer.segment_count(), 3);
    assert_eq!(writer.frames_written(), 1);
    assert_eq!(created(&journal), vec!["st_000.mp3", "st_001.mp3", "st_002.mp3"]);
}

#[test]
fn mono_write_needs_a_mono_writer() {
    let config = EncoderConfig {
        sample_rate: 44_100,
        bitrate: 128,
        channels: 2,
        stereo_mode: StereoMode::Stereo,
        copyright: false,
        original: true,
    };
    let mut writer = Mp3Splitter::new("st".to_string(), config, Duration::from_secs(1)).unwrap();
    let mut journal = Vec::new();
    assert_eq!(writer.write_f32_mono(&tone(4), &mut journal), Err(WriterError::NotMono));
    assert!(journal.is_empty());
    assert_eq!(writer.segment_count(), 0);
}

#[test]
fn samples_are_converted_before_encoding() {
    let samples: Vec<u32> =
        [0.0f32, 1.0, -1.0, 0.5, 3.0, f32::NAN].iter().map(|x| x.to_bits()).collect();
    let mut out = vec![7i16; 3];
    convert_samples(&samples, 1, 5, &mut out);
    assert_eq!(out, vec![32767, -32767, 16383, 32767]);
    convert_samples(&samples, 0, 6, &mut out);
    assert_eq!(out, vec![0, 32767, -32767, 16383, 32767, 0]);
    convert_samples(&samples, 2, 2, &mut out);
    assert!(out.is_empty());
}

#[test]
fn blocks_are_appended_in_order() {
    let mut journal = vec![SegmentOp::Create { path: "a".to_string() }];
    append_blocks(vec![vec![1, 2], vec![3], vec![4, 5, 6]], &mut journal);
    assert_eq!(
        journal,
        vec![
            SegmentOp::Create { path: "a".to_string() },
            SegmentOp::Append { bytes: vec![1, 2] },
            SegmentOp::Append { bytes: vec![3] },
            SegmentOp::Append { bytes: vec![4, 5, 6] },
        ]
    );
    append_blocks(Vec::new(), &mut journal);
    assert_eq!(journal.len(), 4);
}

#[test]
fn loud_and_noisy_audio_is_encoded() {
    let mut seed: u32 = 7;
    let mut noise = Vec::new();
    for _ in 0..6000 {
        seed = seed.wrapping_mul(1_664_525).wrapping_add(1_013_904_223);
        noise.push((((seed >> 8) as f32 / 8_388_608.0) - 1.0).to_bits());
    }
    let square: Vec<u32> =
        (0..6000).map(|i| if (i / 3) % 2 == 0 { 1.0f32 } else { -1.0f32 }.to_bits()).collect();
    let flat: Vec<u32> = (0..6000).map(|_| 1.0f32.to_bits()).collect();
    let silence: Vec<u32> = vec![0; 6000];
    let patterns: Vec<u32> = (0..6000u32).map(|i| i.wrapping_mul(2_654_435_761)).collect();
    for buffer in [noise, square, flat, silence, patterns] {
        let mut writer = writer_with_capacity(2_500);
        let mut journal = Vec::new();
        assert_eq!(writer.write_f32_mono(&buffer, &mut journal), Ok(()));
        assert_eq!(writer.segment_count(), 3);
        assert_eq!(writer.frames_written(), 1_000);
        assert_eq!(writer.finalize(&mut journal), Ok(()));
        let files = files(&journal);
        assert_eq!(files.len(), 3);
        for (_, bytes) in &files {
            assert!(!bytes.is_empty());
        }
    }
}

#[test]
fn every_supported_rate_starts_an_encoder() {
    for (sample_rate, bitrate) in [
        (8_000u32, 8u32),
        (8_000, 64),
        (11_025, 32),
        (12_000, 48),
        (16_000, 8),
        (16_000, 160),
        (22_050, 56),
        (24_000, 64),
        (24_000, 160),
        (32_000, 32),
        (44_100, 128),
        (48_000, 320),
    ] {
        for (channels, stereo_mode) in [
            (1u8, StereoMode::Mono),
            (2, StereoMode::Stereo),
            (2, StereoMode::JointStereo),
            (2, StereoMode::DualChannel),
        ] {
            let config = EncoderConfig {
                sample_rate,
                bitrate,
                channels,
                stereo_mode,
                copyright: false,
                original: true,
            };
            let mut writer =
                Mp3Splitter::new("x".to_string(), config, Duration::from_secs(1)).unwrap();
            let mut journal = Vec::new();
            let samples = tone(4_000);
            assert_eq!(
                writer.write_f32_interleaved(&samples, &mut journal),
                Ok(()),
                "{sample_rate} Hz, {bitrate} kbit/s, {channels} channels"
            );
            assert_eq!(writer.frames_written(), 4_000 / channels as u64);
            assert_eq!(writer.finalize(&mut journal), Ok(()));
            assert_eq!(files(&journal).len(), 1);
        }
    }
}

#[test]
fn tail_is_appended_only_when_there_is_one() {
    let mut journal = vec![SegmentOp::Create { path: "a".to_string() }];
    append_tail(vec![9, 8], &mut journal);
    assert_eq!(
        journal,
        vec![
            SegmentOp::Create { path: "a".to_string() },
            SegmentOp::Append { bytes: vec![9, 8] },
            SegmentOp::Close,
        ]
    );
    let mut journal = vec![SegmentOp::Create { path: "b".to_string() }];
    append_tail(Vec::new(), &mut journal);
    assert_eq!(
        journal,
        vec![SegmentOp::Create { path: "b".to_string() }, SegmentOp::Close]
    );
}

#[test]
fn segment_without_frames_can_be_finished() {
    let mut writer = writer_with_capacity(100);
    let mut journal = Vec::new();
    assert_eq!(writer.write_f32_mono(&[], &mut journal), Ok(()));
    assert_eq!(writer.finalize(&mut journal), Ok(()));
    assert_eq!(created(&journal), vec!["out/audio_000.mp3"]);
    assert_eq!(closes(&journal), 1);
    assert_eq!(journal.last(), Some(&SegmentOp::Close));
    assert_eq!(files(&journal).len(), 1);
}
