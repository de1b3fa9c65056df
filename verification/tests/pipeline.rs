use std::time::Duration;
use txt2mp3::config::{EncoderConfig, StereoMode};
use txt2mp3::dispatch::Dispatcher;
use txt2mp3::error::{PipelineError, WriterError};
use txt2mp3::pipeline::Consumer;
use txt2mp3::reorder::JobResult;
use txt2mp3::journal::SegmentOp;
use txt2mp3::writer::{default_mono_24k_config, Mp3Splitter};

fn writer(capacity_nanos: u64) -> Mp3Splitter {
    Mp3Splitter::new(
        "run/audio".to_string(),
        default_mono_24k_config(64),
        Duration::from_nanos(capacity_nanos),
    )
    .unwrap()
}

/// The audio of the job at `position`: a tone of its own pitch and length.
fn audio(position: usize) -> Vec<u32> {
    let n = 900 + 137 * position;
    let pitch = 200.0 + 50.0 * position as f32;
    (0..n)
        .map(|i| (0.4 * (2.0 * std::f32::consts::PI * pitch * i as f32 / 24_000.0).sin()).to_bits())
        .collect()
}

/// The journal of writing the audio of jobs `0..total` in order.
fn in_order_journal(total: usize, capacity_nanos: u64) -> Vec<SegmentOp> {
    let mut w = writer(capacity_nanos);
    let mut journal = Vec::new();
    for position in 0..total {
        w.write_f32_mono(&audio(position), &mut journal).unwrap();
    }
    w.finalize(&mut journal).unwrap();
    journal
}

fn shuffled(total: usize, seed: &mut u32) -> Vec<usize> {
    let mut order: Vec<usize> = (0..total).collect();
    for i in (1..total).rev() {
        *seed = seed.wrapping_mul(1_103_515_245).wrapping_add(12345);
        order.swap(i, (*seed >> 16) as usize % (i + 1));
    }
    order
}

#[test]
fn output_is_in_job_order_whatever_the_order_of_completion() {
    let total = 12;
    // Segments of 0.1 s: the run spreads over several files.
    let capacity = 100_000_000;
    let expected = in_order_journal(total, capacity);
    assert!(expected.iter().filter(|op| matches!(op, SegmentOp::Create { .. })).count() > 3);
    let mut seed = 99;
    for _ in 0..8 {
        let order = shuffled(total, &mut seed);
        let mut consumer = Consumer::new(total, writer(capacity));
        let mut journal = Vec::new();
        for &position in &order {
            let result = JobResult { position, outcome: Ok(audio(position)) };
            assert_eq!(consumer.on_result(result, &mut journal), Ok(()));
        }
        assert_eq!(consumer.next_expected(), total);
        assert_eq!(consumer.finish(&mut journal), Ok(()));
        assert_eq!(journal, expected, "order {order:?}");
    }
}

#[test]
fn nothing_is_written_before_position_zero_has_come() {
    let mut consumer = Consumer::new(3, writer(1_000_000_000));
    let mut journal = Vec::new();
    assert_eq!(consumer.on_result(JobResult { position: 2, outcome: Ok(audio(2)) }, &mut journal), Ok(()));
    assert_eq!(consumer.on_result(JobResult { position: 1, outcome: Ok(audio(1)) }, &mut journal), Ok(()));
    assert!(journal.is_empty());
    assert_eq!(consumer.writer().segment_count(), 0);
    assert_eq!(consumer.on_result(JobResult { position: 0, outcome: Ok(audio(0)) }, &mut journal), Ok(()));
    assert_eq!(consumer.writer().segment_count(), 1);
    assert_eq!(consumer.writer().frames_written() as usize, audio(0).len() + audio(1).len() + audio(2).len());
}

#[test]
fn failed_job_two_of_five_stops_the_run_after_jobs_zero_and_one() {
    let expected_audio = audio(0).len() + audio(1).len();
    for order in [[0, 1, 2, 3, 4], [4, 3, 2, 1, 0], [3, 2, 0, 4, 1], [2, 4, 1, 3, 0]] {
        let mut consumer = Consumer::new(5, writer(3_600_000_000_000));
        let mut journal = Vec::new();
        let mut failure = None;
        for position in order {
            let outcome =
                if position == 2 { Err("voice model missing".to_string()) } else { Ok(audio(position)) };
            if let Err(e) = consumer.on_result(JobResult { position, outcome }, &mut journal) {
                failure = Some(e);
            }
        }
        assert_eq!(
            failure,
            Some(PipelineError::Synthesis { position: 2, reason: "voice model missing".to_string() })
        );
        assert_eq!(consumer.next_expected(), 2);
        // Jobs 0 and 1 are written, nothing of job 2 or later.
        assert_eq!(consumer.writer().frames_written() as usize, expected_audio);
        assert_eq!(
            consumer.finish(&mut journal),
            Err(PipelineError::Synthesis { position: 2, reason: "voice model missing".to_string() })
        );
        // What was written is flushed: the journal is that of jobs 0 and 1 alone.
        assert_eq!(journal, in_order_journal(2, 3_600_000_000_000));
    }
}

#[test]
fn failure_of_the_first_job_writes_nothing() {
    let mut consumer = Consumer::new(2, writer(1_000_000_000));
    let mut journal = Vec::new();
    assert_eq!(consumer.on_result(JobResult { position: 1, outcome: Ok(audio(1)) }, &mut journal), Ok(()));
    assert_eq!(
        consumer.on_result(JobResult { position: 0, outcome: Err("x".to_string()) }, &mut journal),
        Err(PipelineError::Synthesis { position: 0, reason: "x".to_string() })
    );
    assert!(journal.is_empty());
    assert_eq!(
        consumer.finish(&mut journal),
        Err(PipelineError::Synthesis { position: 0, reason: "x".to_string() })
    );
    assert!(journal.is_empty());
}

#[test]
fn results_that_break_the_contract_are_errors() {
    let mut consumer = Consumer::new(2, writer(1_000_000_000));
    let mut journal = Vec::new();
    assert_eq!(
        consumer.on_result(JobResult { position: 2, outcome: Ok(audio(0)) }, &mut journal),
        Err(PipelineError::UnknownPosition { position: 2 })
    );
    assert_eq!(consumer.on_result(JobResult { position: 0, outcome: Ok(audio(0)) }, &mut journal), Ok(()));
    let len = journal.len();
    assert_eq!(
        consumer.on_result(JobResult { position: 0, outcome: Ok(audio(0)) }, &mut journal),
        Err(PipelineError::DuplicatePosition { position: 0 })
    );
    assert_eq!(journal.len(), len);
    // Position 1 never comes.
    assert_eq!(consumer.finish(&mut journal), Err(PipelineError::MissingPosition { position: 1 }));
    assert_eq!(journal.last(), Some(&SegmentOp::Close));
}

#[test]
fn run_without_jobs_creates_no_file() {
    let consumer = Consumer::new(0, writer(1_000_000_000));
    let mut journal = Vec::new();
    assert_eq!(consumer.finish(&mut journal), Ok(()));
    assert!(journal.is_empty());
}

#[test]
fn writer_failure_stops_the_run() {
    let stereo = EncoderConfig {
        sample_rate: 44_100,
        bitrate: 128,
        channels: 2,
        stereo_mode: StereoMode::Stereo,
        copyright: false,
        original: true,
    };
    let writer = Mp3Splitter::new("st".to_string(), stereo, Duration::from_secs(1)).unwrap();
    let mut consumer = Consumer::new(2, writer);
    let mut journal = Vec::new();
    // Nothing is released yet, so nothing is written.
    assert_eq!(consumer.on_result(JobResult { position: 1, outcome: Ok(audio(1)) }, &mut journal), Ok(()));
    assert_eq!(
        consumer.on_result(JobResult { position: 0, outcome: Ok(audio(0)) }, &mut journal),
        Err(PipelineError::Writer { error: WriterError::NotMono })
    );
    assert!(journal.is_empty());
    assert_eq!(consumer.writer().segment_count(), 0);
}

#[test]
fn dispatcher_and_consumer_keep_the_order_of_the_jobs() {
    let total = 20;
    let capacity = 150_000_000;
    let expected = in_order_journal(total, capacity);
    let mut seed: u32 = 4711;
    for limit in [1usize, 2, 5, 50] {
        let mut dispatcher = Dispatcher::new(total, limit).unwrap();
        let mut consumer = Consumer::new(total, writer(capacity));
        let mut journal = Vec::new();
        let mut running: Vec<usize> = Vec::new();
        while !dispatcher.is_drained() {
            while let Some(position) = dispatcher.start_next() {
                running.push(position);
            }
            assert!(running.len() <= limit);
            // Some running job ends, not always the oldest.
            seed = seed.wrapping_mul(1_103_515_245).wrapping_add(12345);
            let position = running.swap_remove((seed >> 16) as usize % running.len());
            let result = dispatcher.complete(position, Ok(audio(position))).unwrap();
            assert_eq!(consumer.on_result(result, &mut journal), Ok(()));
        }
        assert_eq!(consumer.finish(&mut journal), Ok(()));
        assert_eq!(journal, expected, "limit {limit}");
    }
}
