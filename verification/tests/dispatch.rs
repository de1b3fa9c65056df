use txt2mp3::dispatch::Dispatcher;
use txt2mp3::error::{ConfigError, PipelineError};
use txt2mp3::reorder::JobResult;

#[test]
fn zero_limit_is_rejected() {
    assert!(matches!(Dispatcher::new(5, 0), Err(ConfigError::NoConcurrency)));
    assert!(Dispatcher::new(5, 1).is_ok());
}

#[test]
fn jobs_start_in_order_up_to_the_limit() {
    let mut d = Dispatcher::new(10, 3).unwrap();
    assert_eq!(d.start_next(), Some(0));
    assert_eq!(d.start_next(), Some(1));
    assert_eq!(d.start_next(), Some(2));
    assert_eq!(d.in_flight(), 3);
    assert_eq!(d.start_next(), None);
    assert_eq!(d.start_next(), None);
    assert_eq!(d.in_flight(), 3);
}

#[test]
fn a_finished_job_frees_its_slot() {
    let mut d = Dispatcher::new(10, 2).unwrap();
    assert_eq!(d.start_next(), Some(0));
    assert_eq!(d.start_next(), Some(1));
    assert_eq!(d.start_next(), None);
    // The later job ends first.
    let result = d.complete(1, Ok::<u8, String>(11)).unwrap();
    assert_eq!(result, JobResult { position: 1, outcome: Ok(11) });
    assert_eq!(d.in_flight(), 1);
    assert_eq!(d.start_next(), Some(2));
    assert_eq!(d.start_next(), None);
}

#[test]
fn failure_is_forwarded_with_its_position() {
    let mut d = Dispatcher::new(3, 3).unwrap();
    d.start_next();
    d.start_next();
    let result = d.complete(1, Err::<u8, String>("no voice".to_string())).unwrap();
    assert_eq!(result, JobResult { position: 1, outcome: Err("no voice".to_string()) });
    assert_eq!(d.in_flight(), 1);
}

#[test]
fn only_running_jobs_can_finish() {
    let mut d = Dispatcher::new(4, 2).unwrap();
    d.start_next();
    assert_eq!(
        d.complete(9, Ok::<u8, String>(0)),
        Err(PipelineError::UnknownPosition { position: 9 })
    );
    assert_eq!(
        d.complete(4, Ok::<u8, String>(0)),
        Err(PipelineError::UnknownPosition { position: 4 })
    );
    // Not started yet.
    assert_eq!(
        d.complete(2, Ok::<u8, String>(0)),
        Err(PipelineError::NotRunning { position: 2 })
    );
    assert!(d.complete(0, Ok::<u8, String>(0)).is_ok());
    // Finished already.
    assert_eq!(
        d.complete(0, Ok::<u8, String>(0)),
        Err(PipelineError::NotRunning { position: 0 })
    );
    assert_eq!(d.in_flight(), 0);
}

#[test]
fn drained_only_when_every_job_has_ended() {
    let mut d = Dispatcher::new(3, 2).unwrap();
    assert!(!d.is_drained());
    assert_eq!(d.start_next(), Some(0));
    assert_eq!(d.start_next(), Some(1));
    assert!(d.complete(0, Ok::<u8, String>(0)).is_ok());
    assert!(d.complete(1, Ok::<u8, String>(0)).is_ok());
    // Nothing runs, but one job has not started.
    assert!(!d.is_drained());
    assert_eq!(d.start_next(), Some(2));
    assert!(!d.is_drained());
    assert!(d.complete(2, Err::<u8, String>("x".to_string())).is_ok());
    assert!(d.is_drained());
    assert_eq!(d.start_next(), None);
}

#[test]
fn no_jobs_are_drained_at_once() {
    let mut d = Dispatcher::new(0, 4).unwrap();
    assert!(d.is_drained());
    assert_eq!(d.start_next(), None);
}

#[test]
fn limit_holds_through_a_whole_run() {
    let total = 200;
    let limit = 7;
    let mut d = Dispatcher::new(total, limit).unwrap();
    let mut running: Vec<usize> = Vec::new();
    let mut started = 0;
    let mut ended = 0;
    let mut seed: u32 = 12345;
    while !d.is_drained() {
        while let Some(position) = d.start_next() {
            assert_eq!(position, started);
            started += 1;
            running.push(position);
            assert!(running.len() <= limit);
        }
        assert_eq!(d.in_flight(), running.len());
        seed = seed.wrapping_mul(1_103_515_245).wrapping_add(12345);
        let pick = (seed >> 16) as usize % running.len();
        let position = running.swap_remove(pick);
        let result = d.complete(position, Ok::<usize, String>(position * 2)).unwrap();
        assert_eq!(result.position, position);
        assert_eq!(result.outcome, Ok(position * 2));
        ended += 1;
    }
    assert_eq!(started, total);
    assert_eq!(ended, total);
}
