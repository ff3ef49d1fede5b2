use rcloneflix::worker::{
    command_ops, EngineOp, EngineStatus, ErrorKind, PlaybackCommand, WorkerEvent, WorkerState,
};

fn tick(w: &mut WorkerState, status: EngineStatus) -> Vec<WorkerEvent> {
    w.emit_tick(status, 1234, 5678)
}

#[test]
fn transport_commands_before_open_leave_worker_alive() {
    let mut w = WorkerState::new();
    w.on_command(&PlaybackCommand::Play);
    w.on_command(&PlaybackCommand::Pause);
    w.on_command(&PlaybackCommand::Stop);
    w.on_command(&PlaybackCommand::Play);
    assert!(!w.done);
    assert!(w.pending_seek_ms.is_none());
    // Polling an idle engine raises nothing either.
    let evs = tick(&mut w, EngineStatus::Idle);
    assert_eq!(evs, vec![]);
}

#[test]
fn shutdown_stops_the_worker() {
    let mut w = WorkerState::new();
    w.on_command(&PlaybackCommand::Shutdown);
    assert!(w.done);
}

#[test]
fn open_below_threshold_records_no_seek() {
    let mut w = WorkerState::new();
    w.on_command(&PlaybackCommand::Open { url: b"u".to_vec(), start_ms: 5000 });
    let evs = w.on_open_result(5000, true, true);
    assert_eq!(evs, vec![]);
    assert_eq!(w.pending_seek_ms, None);
    assert_eq!(w.take_pending_seek(EngineStatus::Playing), None);
}

#[test]
fn open_above_threshold_seeks_exactly_once_after_playing() {
    let mut w = WorkerState::new();
    w.on_command(&PlaybackCommand::Open { url: b"u".to_vec(), start_ms: 90_000 });
    let evs = w.on_open_result(90_000, true, true);
    assert_eq!(evs, vec![]);
    assert_eq!(w.pending_seek_ms, Some(90_000));
    // Not yet playing: no seek, the offset stays pending.
    assert_eq!(w.take_pending_seek(EngineStatus::Opening), None);
    assert_eq!(w.take_pending_seek(EngineStatus::Buffering), None);
    // First playing observation: the one seek.
    assert_eq!(w.take_pending_seek(EngineStatus::Playing), Some(90_000));
    // Never again.
    assert_eq!(w.take_pending_seek(EngineStatus::Playing), None);
}

#[test]
fn new_open_supersedes_pending_seek() {
    let mut w = WorkerState::new();
    w.on_open_result(90_000, true, true);
    assert_eq!(w.pending_seek_ms, Some(90_000));
    w.on_command(&PlaybackCommand::Open { url: b"v".to_vec(), start_ms: 0 });
    assert_eq!(w.pending_seek_ms, None);
}

#[test]
fn resume_threshold_is_configurable() {
    let mut w = WorkerState::new_with_threshold(1000);
    w.on_open_result(2000, true, true);
    assert_eq!(w.pending_seek_ms, Some(2000));
    let mut w2 = WorkerState::new_with_threshold(1000);
    w2.on_open_result(1000, true, true);
    assert_eq!(w2.pending_seek_ms, None);
}

#[test]
fn stop_clears_pending_seek() {
    let mut w = WorkerState::new();
    w.on_open_result(90_000, true, true);
    w.on_command(&PlaybackCommand::Stop);
    assert_eq!(w.pending_seek_ms, None);
}

#[test]
fn failed_media_open_raises_one_error_and_worker_lives() {
    let mut w = WorkerState::new();
    let evs = w.on_open_result(90_000, false, false);
    assert_eq!(evs, vec![WorkerEvent::Error { kind: ErrorKind::MediaOpen }]);
    assert_eq!(w.pending_seek_ms, None);
    assert!(!w.done);
}

#[test]
fn refused_play_raises_one_error_but_keeps_pending_seek() {
    let mut w = WorkerState::new();
    let evs = w.on_open_result(90_000, true, false);
    assert_eq!(evs, vec![WorkerEvent::Error { kind: ErrorKind::PlaybackStart }]);
    assert_eq!(w.pending_seek_ms, Some(90_000));
}

#[test]
fn state_events_are_deduplicated() {
    let mut w = WorkerState::new();
    // Initial memory is all-false, so an idle engine emits nothing.
    assert_eq!(tick(&mut w, EngineStatus::Idle), vec![]);
    // Opening flips buffering on: one event.
    assert_eq!(
        tick(&mut w, EngineStatus::Opening),
        vec![WorkerEvent::State { playing: false, buffering: true, ended: false }]
    );
    // Buffering projects identically: nothing.
    assert_eq!(tick(&mut w, EngineStatus::Buffering), vec![]);
    // Playing: one event.
    assert_eq!(
        tick(&mut w, EngineStatus::Playing),
        vec![WorkerEvent::State { playing: true, buffering: false, ended: false }]
    );
    // Still playing: nothing.
    assert_eq!(tick(&mut w, EngineStatus::Playing), vec![]);
    // Ended: one event, and repeating it emits nothing again.
    assert_eq!(
        tick(&mut w, EngineStatus::Ended),
        vec![WorkerEvent::State { playing: false, buffering: false, ended: true }]
    );
    assert_eq!(tick(&mut w, EngineStatus::Ended), vec![]);
}

#[test]
fn engine_errors_bypass_deduplication() {
    let mut w = WorkerState::new();
    // An error status projects to all-false, which equals the worker's
    // initial memory: no state event, but the error goes out every tick it
    // persists, never de-duplicated.
    let first = tick(&mut w, EngineStatus::Error);
    assert_eq!(first, vec![WorkerEvent::Error { kind: ErrorKind::Playback }]);
    let second = tick(&mut w, EngineStatus::Error);
    assert_eq!(second, vec![WorkerEvent::Error { kind: ErrorKind::Playback }]);
    let third = tick(&mut w, EngineStatus::Error);
    assert_eq!(third, vec![WorkerEvent::Error { kind: ErrorKind::Playback }]);
}

#[test]
fn time_events_come_once_per_ten_playing_ticks() {
    let mut w = WorkerState::new();
    let mut time_events = 0;
    for t in 0..30 {
        let evs = tick(&mut w, EngineStatus::Playing);
        let times = evs
            .iter()
            .filter(|e| matches!(e, WorkerEvent::Time { .. }))
            .count();
        time_events += times;
        // Never more than one per tick, and one exactly every tenth tick.
        assert!(times <= 1);
        assert_eq!(times == 1, (t + 1) % 10 == 0);
    }
    assert_eq!(time_events, 3);
}

#[test]
fn pause_resets_the_time_cadence() {
    let mut w = WorkerState::new();
    for _ in 0..9 {
        assert!(tick(&mut w, EngineStatus::Playing)
            .iter()
            .all(|e| !matches!(e, WorkerEvent::Time { .. })));
    }
    // A pause resets the counter, so the tenth playing tick starts over.
    tick(&mut w, EngineStatus::Paused);
    for _ in 0..9 {
        assert!(tick(&mut w, EngineStatus::Playing)
            .iter()
            .all(|e| !matches!(e, WorkerEvent::Time { .. })));
    }
    let evs = tick(&mut w, EngineStatus::Playing);
    assert!(evs.iter().any(|e| matches!(e, WorkerEvent::Time { time_ms: 1234, duration_ms: 5678 })));
}

#[test]
fn command_ops_clamp_volume() {
    let ops = command_ops(PlaybackCommand::SetVolume(150));
    assert!(matches!(ops.as_slice(), [EngineOp::SetVolume(100)]));
    let ops = command_ops(PlaybackCommand::SetVolume(-3));
    assert!(matches!(ops.as_slice(), [EngineOp::SetVolume(0)]));
    let ops = command_ops(PlaybackCommand::SetVolume(42));
    assert!(matches!(ops.as_slice(), [EngineOp::SetVolume(42)]));
}

#[test]
fn command_ops_for_open_stop_then_load() {
    let ops = command_ops(PlaybackCommand::Open { url: b"http://x/y".to_vec(), start_ms: 0 });
    assert_eq!(ops.len(), 2);
    assert!(matches!(&ops[0], EngineOp::StopMedia));
    match &ops[1] {
        EngineOp::OpenAndPlay { url } => assert_eq!(url, &b"http://x/y".to_vec()),
        other => panic!("unexpected op: {:?}", ops_name(other)),
    }
    assert!(matches!(command_ops(PlaybackCommand::Shutdown).as_slice(), []));
    assert!(matches!(command_ops(PlaybackCommand::Seek(777)).as_slice(), [EngineOp::SeekTo(777)]));
}

fn ops_name(op: &EngineOp) -> &'static str {
    match op {
        EngineOp::StopMedia => "StopMedia",
        EngineOp::OpenAndPlay { .. } => "OpenAndPlay",
        EngineOp::Play => "Play",
        EngineOp::SetPause => "SetPause",
        EngineOp::SeekTo(_) => "SeekTo",
        EngineOp::SetVolume(_) => "SetVolume",
        EngineOp::SetWindow(_) => "SetWindow",
    }
}
