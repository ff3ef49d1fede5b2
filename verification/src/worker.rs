//! The playback worker's state machine.
//!
//! A single worker owns the native playback engine. Each poll tick it takes
//! at most one command from its channel, asks the engine to perform the
//! matching operations, resolves a pending resume seek once the engine is
//! observed playing, and projects the engine's status into de-duplicated
//! state events, rate-limited time events and immediate error events. The
//! decisions live here as pure transitions; the caller performs the engine
//! operations and reports their outcomes back.

use vstd::prelude::*;

verus! {

/// An open records its start offset as a pending resume seek only above
/// this many milliseconds; a smaller offset plays from the start.
pub const RESUME_THRESHOLD_MS: i64 = 5000;

/// A time event is emitted once per this many poll ticks while playing.
pub const TIME_EVENT_PERIOD_TICKS: u8 = 10;

/// Milliseconds between two poll ticks.
pub const POLL_INTERVAL_MS: u64 = 100;

/// A command sent to the playback worker over its channel.
pub enum PlaybackCommand {
    /// Stop the current media and start playing a new source, a local path
    /// or a URL, resuming at `start_ms` once playback has begun.
    Open { url: Vec<u8>, start_ms: i64 },
    /// Resume playback.
    Play,
    /// Pause playback.
    Pause,
    /// Stop playback and drop any pending resume seek.
    Stop,
    /// Jump to an absolute position in milliseconds.
    Seek(i64),
    /// Set the volume; the worker clamps it to 0..=100.
    SetVolume(i32),
    /// Hand the engine a native window to render into.
    SetWindow(u32),
    /// Stop the poll loop and release the engine.
    Shutdown,
}

/// What the native engine reports when polled.
#[derive(Clone, Copy, PartialEq, Eq, Structural, Debug)]
pub enum EngineStatus {
    /// No media loaded.
    Idle,
    /// A source is being opened.
    Opening,
    /// Playback stalled while data arrives.
    Buffering,
    /// Playing.
    Playing,
    /// Paused.
    Paused,
    /// Stopped.
    Stopped,
    /// The media played to its end.
    Ended,
    /// The engine reports a runtime error.
    Error,
}

/// One operation the worker asks the engine to perform.
pub enum EngineOp {
    /// Stop and unload the current media.
    StopMedia,
    /// Load the source and start playback; the caller reports whether the
    /// load and the play call succeeded.
    OpenAndPlay { url: Vec<u8> },
    /// Resume playback.
    Play,
    /// Pause playback.
    SetPause,
    /// Jump to an absolute position in milliseconds.
    SeekTo(i64),
    /// Set the volume, already clamped to 0..=100.
    SetVolume(i32),
    /// Bind the engine's video output to a native window.
    SetWindow(u32),
}

/// The three booleans of a state event.
#[derive(Clone, Copy, PartialEq, Eq, Structural, Debug)]
pub struct Projection {
    /// The engine is playing.
    pub playing: bool,
    /// The engine is opening or buffering.
    pub buffering: bool,
    /// The media played to its end.
    pub ended: bool,
}

/// Why an error event was emitted.
#[derive(Clone, Copy, PartialEq, Eq, Structural, Debug)]
pub enum ErrorKind {
    /// The native engine could not be initialised.
    EngineInit,
    /// A player instance could not be created.
    EngineCreate,
    /// The media source could not be opened.
    MediaOpen,
    /// The engine refused to start playback.
    PlaybackStart,
    /// The engine reports a runtime playback error.
    Playback,
}

/// An event the worker emits towards the caller's collaborator layer.
#[derive(Clone, Copy, PartialEq, Eq, Structural, Debug)]
pub enum WorkerEvent {
    /// The state projection changed.
    State { playing: bool, buffering: bool, ended: bool },
    /// Position and duration, emitted about once per second while playing.
    Time { time_ms: i64, duration_ms: i64 },
    /// An error condition, never de-duplicated.
    Error { kind: ErrorKind },
}

/// Everything the worker remembers between poll ticks.
pub struct WorkerState {
    /// Resume offset recorded by an open, waiting for the engine to be
    /// observed playing.
    pub pending_seek_ms: Option<i64>,
    /// The last state projection actually sent out.
    pub last_emitted: Projection,
    /// Poll ticks since the last time event while playing.
    pub time_tick: u8,
    /// Set by `Shutdown`: the poll loop stops and no further command is
    /// accepted.
    pub done: bool,
    /// An open records a pending seek only above this offset.
    pub resume_threshold_ms: i64,
}

impl WorkerState {
    /// The tick counter never reaches the emission period: it is reset the
    /// tick it would.
    pub open spec fn wf(self) -> bool {
        self.time_tick < TIME_EVENT_PERIOD_TICKS
    }

    /// A fresh worker: nothing pending, nothing emitted, not shut down.
    pub fn new() -> (w: WorkerState)
        ensures
            w.wf(),
            !w.done,
            w.pending_seek_ms is None,
            w.last_emitted == (Projection { playing: false, buffering: false, ended: false }),
            w.time_tick == 0,
            w.resume_threshold_ms == RESUME_THRESHOLD_MS,
    {
        WorkerState {
            pending_seek_ms: None,
            last_emitted: Projection { playing: false, buffering: false, ended: false },
            time_tick: 0,
            done: false,
            resume_threshold_ms: RESUME_THRESHOLD_MS,
        }
    }

    /// A fresh worker with its own resume threshold.
    pub fn new_with_threshold(resume_threshold_ms: i64) -> (w: WorkerState)
        ensures
            w.wf(),
            !w.done,
            w.pending_seek_ms is None,
            w.last_emitted == (Projection { playing: false, buffering: false, ended: false }),
            w.time_tick == 0,
            w.resume_threshold_ms == resume_threshold_ms,
    {
        WorkerState { resume_threshold_ms, ..WorkerState::new() }
    }
}

/// A volume clamped to 0..=100.
pub open spec fn spec_clamp_volume(v: i32) -> i32 {
    if v < 0 {
        0
    } else if v > 100 {
        100
    } else {
        v
    }
}

/// The engine operations a command asks for, in order.
pub open spec fn spec_command_ops(cmd: PlaybackCommand) -> Seq<EngineOp> {
    match cmd {
        PlaybackCommand::Open { url, start_ms: _ } => seq![
            EngineOp::StopMedia,
            EngineOp::OpenAndPlay { url },
        ],
        PlaybackCommand::Play => seq![EngineOp::Play],
        PlaybackCommand::Pause => seq![EngineOp::SetPause],
        PlaybackCommand::Stop => seq![EngineOp::StopMedia],
        PlaybackCommand::Seek(ms) => seq![EngineOp::SeekTo(ms)],
        PlaybackCommand::SetVolume(v) => seq![EngineOp::SetVolume(spec_clamp_volume(v))],
        PlaybackCommand::SetWindow(x) => seq![EngineOp::SetWindow(x)],
        PlaybackCommand::Shutdown => Seq::empty(),
    }
}

/// How a command changes the worker's state: an open or a stop drops any
/// pending seek, a shutdown marks the worker done, everything else leaves
/// the state alone.
pub open spec fn spec_apply_command(w: WorkerState, cmd: PlaybackCommand) -> WorkerState {
    match cmd {
        PlaybackCommand::Open { url: _, start_ms: _ } => WorkerState {
            pending_seek_ms: None,
            ..w
        },
        PlaybackCommand::Stop => WorkerState { pending_seek_ms: None, ..w },
        PlaybackCommand::Shutdown => WorkerState { done: true, ..w },
        _ => w,
    }
}

/// The worker's state after an open, given whether the engine accepted the
/// media: a successful open above the threshold records the pending seek,
/// everything else leaves none.
pub open spec fn spec_open_state(w: WorkerState, start_ms: i64, media_ok: bool) -> WorkerState {
    WorkerState {
        pending_seek_ms: if media_ok && start_ms > w.resume_threshold_ms {
            Some(start_ms)
        } else {
            None
        },
        ..w
    }
}

/// The events an open's outcome raises: a failed load or a refused play
/// call each raise one error; the worker stays alive either way.
pub open spec fn spec_open_events(media_ok: bool, play_ok: bool) -> Seq<WorkerEvent> {
    if !media_ok {
        seq![WorkerEvent::Error { kind: ErrorKind::MediaOpen }]
    } else if !play_ok {
        seq![WorkerEvent::Error { kind: ErrorKind::PlaybackStart }]
    } else {
        Seq::empty()
    }
}

/// The seek to issue this tick: the pending offset exactly when one is
/// recorded and the engine is observed playing.
pub open spec fn spec_seek_out(w: WorkerState, status: EngineStatus) -> Option<i64> {
    if status is Playing {
        w.pending_seek_ms
    } else {
        None
    }
}

/// The pending seek after this tick: consumed at the first playing
/// observation, kept otherwise.
pub open spec fn spec_seek_state(w: WorkerState, status: EngineStatus) -> WorkerState {
    if status is Playing {
        WorkerState { pending_seek_ms: None, ..w }
    } else {
        w
    }
}

/// The projection of an engine status into the three event booleans.
pub open spec fn spec_project(status: EngineStatus) -> Projection {
    Projection {
        playing: status is Playing,
        buffering: status is Opening || status is Buffering,
        ended: status is Ended,
    }
}

/// Whether this tick emits a time event: only while playing, on the tick
/// that completes an emission period.
pub open spec fn spec_time_due(w: WorkerState, status: EngineStatus) -> bool {
    spec_project(status).playing && w.time_tick + 1 >= TIME_EVENT_PERIOD_TICKS
}

/// The worker's memory after an emission tick: the last emitted projection
/// follows the engine, and the time counter advances while playing and
/// rests at zero otherwise.
pub open spec fn spec_tick_state(w: WorkerState, status: EngineStatus) -> WorkerState {
    let p = spec_project(status);
    WorkerState {
        last_emitted: p,
        time_tick: if p.playing {
            if w.time_tick + 1 >= TIME_EVENT_PERIOD_TICKS {
                0
            } else {
                (w.time_tick + 1) as u8
            }
        } else {
            0
        },
        ..w
    }
}

/// The events of one emission tick, in order: an engine error is reported
/// every tick it persists, a state event goes out only when the projection
/// changed, and a time event only while playing, once per period.
pub open spec fn spec_tick_events(
    w: WorkerState,
    status: EngineStatus,
    time_ms: i64,
    duration_ms: i64,
) -> Seq<WorkerEvent> {
    let p = spec_project(status);
    (if status is Error {
        seq![WorkerEvent::Error { kind: ErrorKind::Playback }]
    } else {
        Seq::empty()
    }) + (if p != w.last_emitted {
        seq![WorkerEvent::State { playing: p.playing, buffering: p.buffering, ended: p.ended }]
    } else {
        Seq::empty()
    }) + (if spec_time_due(w, status) {
        seq![WorkerEvent::Time { time_ms, duration_ms }]
    } else {
        Seq::empty()
    })
}

impl WorkerState {
    /// Apply one command to the worker's memory. The caller then performs
    /// `command_ops` of the same command on the engine and, for an open,
    /// reports the outcome through `on_open_result`.
    pub fn on_command(&mut self, cmd: &PlaybackCommand)
        requires
            !old(self).done,
            old(self).wf(),
        ensures
            *final(self) == spec_apply_command(*old(self), *cmd),
            final(self).wf(),
    {
        match cmd {
            PlaybackCommand::Open { .. } => {
                self.pending_seek_ms = None;
            },
            PlaybackCommand::Stop => {
                self.pending_seek_ms = None;
            },
            PlaybackCommand::Shutdown => {
                self.done = true;
            },
            _ => {},
        }
    }

    /// Record an open's outcome: a successful load above the resume
    /// threshold leaves the offset pending; a failed load or a refused
    /// play call raises one error event and the worker stays alive.
    pub fn on_open_result(&mut self, start_ms: i64, media_ok: bool, play_ok: bool) -> (evs: Vec<
        WorkerEvent,
    >)
        requires
            old(self).wf(),
        ensures
            *final(self) == spec_open_state(*old(self), start_ms, media_ok),
            final(self).wf(),
            evs@ == spec_open_events(media_ok, play_ok),
            !final(self).done == !old(self).done,
    {
        let mut evs: Vec<WorkerEvent> = Vec::new();
        if !media_ok {
            self.pending_seek_ms = None;
            evs.push(WorkerEvent::Error { kind: ErrorKind::MediaOpen });
        } else {
            if start_ms > self.resume_threshold_ms {
                self.pending_seek_ms = Some(start_ms);
            } else {
                self.pending_seek_ms = None;
            }
            if !play_ok {
                evs.push(WorkerEvent::Error { kind: ErrorKind::PlaybackStart });
            }
        }
        proof {
            assert(evs@ =~= spec_open_events(media_ok, play_ok));
        }
        evs
    }

    /// Resolve the pending resume seek: returns the offset to seek to
    /// exactly when one is pending and the engine is observed playing, and
    /// consumes it, so it is applied at most once per open.
    pub fn take_pending_seek(&mut self, status: EngineStatus) -> (r: Option<i64>)
        requires
            old(self).wf(),
        ensures
            r == spec_seek_out(*old(self), status),
            *final(self) == spec_seek_state(*old(self), status),
            final(self).wf(),
    {
        if status == EngineStatus::Playing {
            let r = self.pending_seek_ms;
            self.pending_seek_ms = None;
            r
        } else {
            None
        }
    }

    /// Project the engine's status into this tick's events and update the
    /// worker's memory of what was emitted.
    pub fn emit_tick(&mut self, status: EngineStatus, time_ms: i64, duration_ms: i64) -> (evs: Vec<
        WorkerEvent,
    >)
        requires
            old(self).wf(),
        ensures
            *final(self) == spec_tick_state(*old(self), status),
            final(self).wf(),
            evs@ == spec_tick_events(*old(self), status, time_ms, duration_ms),
    {
        let ghost w0 = *self;
        let mut evs: Vec<WorkerEvent> = Vec::new();
        let playing = status == EngineStatus::Playing;
        let buffering = status == EngineStatus::Opening || status == EngineStatus::Buffering;
        let ended = status == EngineStatus::Ended;
        let p = Projection { playing, buffering, ended };
        if status == EngineStatus::Error {
            evs.push(WorkerEvent::Error { kind: ErrorKind::Playback });
        }
        if p != self.last_emitted {
            evs.push(WorkerEvent::State { playing, buffering, ended });
        }
        self.last_emitted = p;
        if playing {
            let next = self.time_tick + 1;
            if next >= TIME_EVENT_PERIOD_TICKS {
                self.time_tick = 0;
                evs.push(WorkerEvent::Time { time_ms, duration_ms });
            } else {
                self.time_tick = next;
            }
        } else {
            self.time_tick = 0;
        }
        proof {
            assert(evs@ =~= spec_tick_events(w0, status, time_ms, duration_ms));
        }
        evs
    }
}

/// The engine operations a command asks for; the volume is clamped here.
pub fn command_ops(cmd: PlaybackCommand) -> (ops: Vec<EngineOp>)
    ensures
        ops@ == spec_command_ops(cmd),
{
    let mut ops: Vec<EngineOp> = Vec::new();
    let ghost c = cmd;
    match cmd {
        PlaybackCommand::Open { url, start_ms: _ } => {
            ops.push(EngineOp::StopMedia);
            ops.push(EngineOp::OpenAndPlay { url });
        },
        PlaybackCommand::Play => {
            ops.push(EngineOp::Play);
        },
        PlaybackCommand::Pause => {
            ops.push(EngineOp::SetPause);
        },
        PlaybackCommand::Stop => {
            ops.push(EngineOp::StopMedia);
        },
        PlaybackCommand::Seek(ms) => {
            ops.push(EngineOp::SeekTo(ms));
        },
        PlaybackCommand::SetVolume(v) => {
            let clamped = if v < 0 {
                0
            } else if v > 100 {
                100
            } else {
                v
            };
            ops.push(EngineOp::SetVolume(clamped));
        },
        PlaybackCommand::SetWindow(x) => {
            ops.push(EngineOp::SetWindow(x));
        },
        PlaybackCommand::Shutdown => {},
    }
    proof {
        assert(ops@ =~= spec_command_ops(c));
    }
    ops
}

/// The worker's memory after a sequence of commands.
pub open spec fn spec_apply_commands(w: WorkerState, cmds: Seq<PlaybackCommand>) -> WorkerState
    decreases cmds.len(),
{
    if cmds.len() == 0 {
        w
    } else {
        spec_apply_commands(spec_apply_command(w, cmds[0]), cmds.drop_first())
    }
}

/// A transport command: play, pause or stop.
pub open spec fn is_transport(cmd: PlaybackCommand) -> bool {
    cmd is Play || cmd is Pause || cmd is Stop
}

/// Play, pause and stop commands — in particular any number of them issued
/// before the first open — never stop the worker: it stays alive, keeps its
/// memory of what was emitted, and holds no pending seek it did not already
/// hold. They also raise no event at all: the worker's only event sources
/// are an open's outcome and the engine's polled status.
pub proof fn lemma_transport_commands_keep_worker_alive(
    w: WorkerState,
    cmds: Seq<PlaybackCommand>,
)
    requires
        forall|i: int| 0 <= i < cmds.len() ==> is_transport(#[trigger] cmds[i]),
    ensures
        ({
            let r = spec_apply_commands(w, cmds);
            &&& r.done == w.done
            &&& r.last_emitted == w.last_emitted
            &&& r.time_tick == w.time_tick
            &&& r.resume_threshold_ms == w.resume_threshold_ms
            &&& (r.pending_seek_ms == w.pending_seek_ms || r.pending_seek_ms is None)
        }),
    decreases cmds.len(),
{
    if cmds.len() > 0 {
        assert(is_transport(cmds[0]));
        let w1 = spec_apply_command(w, cmds[0]);
        assert(forall|i: int|
            0 <= i < cmds.drop_first().len() ==> is_transport(#[trigger] cmds.drop_first()[i]));
        lemma_transport_commands_keep_worker_alive(w1, cmds.drop_first());
    }
}

/// One input the worker consumes: a command taken from the channel, or one
/// poll of the engine with its reported status, position and duration.
pub enum WorkerInput {
    /// A command arrived on the channel.
    Command(PlaybackCommand),
    /// A poll tick observed the engine.
    Poll { status: EngineStatus, time_ms: i64, duration_ms: i64 },
}

/// The worker's memory after one input: a command is applied; a poll
/// resolves the pending seek against the observed status and then emits.
pub open spec fn spec_input_state(w: WorkerState, input: WorkerInput) -> WorkerState {
    match input {
        WorkerInput::Command(cmd) => spec_apply_command(w, cmd),
        WorkerInput::Poll { status, time_ms: _, duration_ms: _ } => spec_tick_state(
            spec_seek_state(w, status),
            status,
        ),
    }
}

/// The events one input raises. A command alone raises none: an open's
/// outcome is reported in a separate step, which a run without an open
/// never takes; a poll raises its tick's events.
pub open spec fn spec_input_events(w: WorkerState, input: WorkerInput) -> Seq<WorkerEvent> {
    match input {
        WorkerInput::Command(_) => Seq::empty(),
        WorkerInput::Poll { status, time_ms, duration_ms } => spec_tick_events(
            spec_seek_state(w, status),
            status,
            time_ms,
            duration_ms,
        ),
    }
}

/// The worker's memory after a whole run of inputs.
pub open spec fn spec_run(w: WorkerState, inputs: Seq<WorkerInput>) -> WorkerState
    decreases inputs.len(),
{
    if inputs.len() == 0 {
        w
    } else {
        spec_run(spec_input_state(w, inputs[0]), inputs.drop_first())
    }
}

/// The events of a whole run of inputs, in order.
pub open spec fn spec_run_events(w: WorkerState, inputs: Seq<WorkerInput>) -> Seq<WorkerEvent>
    decreases inputs.len(),
{
    if inputs.len() == 0 {
        Seq::empty()
    } else {
        spec_input_events(w, inputs[0]) + spec_run_events(
            spec_input_state(w, inputs[0]),
            inputs.drop_first(),
        )
    }
}

/// An input of a session that never opens anything: a play, pause or stop
/// command, or a poll that does not observe an engine error.
pub open spec fn is_quiet_input(input: WorkerInput) -> bool {
    match input {
        WorkerInput::Command(cmd) => is_transport(cmd),
        WorkerInput::Poll { status, time_ms: _, duration_ms: _ } => !(status is Error),
    }
}

/// Any session of play, pause and stop commands and polls that never
/// observe an engine error — in particular any session before the first
/// open, where no media is loaded — leaves the worker running and raises
/// no error event: at most it no-ops, or emits state and time events.
pub proof fn lemma_transport_session_never_errors(w: WorkerState, inputs: Seq<WorkerInput>)
    requires
        forall|i: int| 0 <= i < inputs.len() ==> is_quiet_input(#[trigger] inputs[i]),
    ensures
        spec_run(w, inputs).done == w.done,
        forall|k: int|
            0 <= k < spec_run_events(w, inputs).len() ==> !(#[trigger] spec_run_events(
                w,
                inputs,
            )[k] is Error),
    decreases inputs.len(),
{
    if inputs.len() > 0 {
        assert(is_quiet_input(inputs[0]));
        let w1 = spec_input_state(w, inputs[0]);
        let head = spec_input_events(w, inputs[0]);
        assert(w1.done == w.done);
        assert(forall|k: int| 0 <= k < head.len() ==> !(#[trigger] head[k] is Error)) by {
            match inputs[0] {
                WorkerInput::Command(_) => {},
                WorkerInput::Poll { status, time_ms, duration_ms } => {
                    lemma_error_events_every_tick(
                        spec_seek_state(w, status),
                        status,
                        time_ms,
                        duration_ms,
                    );
                },
            }
        }
        assert(forall|i: int|
            0 <= i < inputs.drop_first().len() ==> is_quiet_input(
                #[trigger] inputs.drop_first()[i],
            ));
        lemma_transport_session_never_errors(w1, inputs.drop_first());
        let tail = spec_run_events(w1, inputs.drop_first());
        assert forall|k: int| 0 <= k < spec_run_events(w, inputs).len() implies !(
        #[trigger] spec_run_events(w, inputs)[k] is Error) by {
            if k < head.len() {
                assert(spec_run_events(w, inputs)[k] == head[k]);
            } else {
                assert(spec_run_events(w, inputs)[k] == tail[k - head.len()]);
            }
        }
    }
}

/// The seeks issued over a sequence of polled statuses, one entry per tick.
pub open spec fn spec_seek_trace(w: WorkerState, statuses: Seq<EngineStatus>) -> Seq<Option<i64>>
    decreases statuses.len(),
{
    if statuses.len() == 0 {
        Seq::empty()
    } else {
        seq![spec_seek_out(w, statuses[0])] + spec_seek_trace(
            spec_seek_state(w, statuses[0]),
            statuses.drop_first(),
        )
    }
}

/// With no pending seek — as after an open at or below the resume threshold
/// — no tick ever issues a seek.
pub proof fn lemma_no_pending_no_seek(w: WorkerState, statuses: Seq<EngineStatus>)
    requires
        w.pending_seek_ms is None,
    ensures
        spec_seek_trace(w, statuses).len() == statuses.len(),
        forall|i: int|
            0 <= i < statuses.len() ==> #[trigger] spec_seek_trace(w, statuses)[i] is None,
    decreases statuses.len(),
{
    if statuses.len() > 0 {
        let w1 = spec_seek_state(w, statuses[0]);
        assert(w1.pending_seek_ms is None);
        lemma_no_pending_no_seek(w1, statuses.drop_first());
    }
}

/// With a pending resume offset — as after a successful open above the
/// threshold — a seek is issued on exactly the first tick that observes the
/// engine playing, to exactly that offset; every other tick issues none,
/// and if playing is never observed no seek is ever issued.
pub proof fn lemma_pending_seek_applied_once(w: WorkerState, v: i64, statuses: Seq<EngineStatus>)
    requires
        w.pending_seek_ms == Some(v),
    ensures
        spec_seek_trace(w, statuses).len() == statuses.len(),
        forall|i: int|
            0 <= i < statuses.len() ==> #[trigger] spec_seek_trace(w, statuses)[i] == (if statuses[i]
                is Playing && (forall|j: int| 0 <= j < i ==> !(#[trigger] statuses[j] is Playing)) {
                Some(v)
            } else {
                None
            }),
    decreases statuses.len(),
{
    if statuses.len() > 0 {
        let tr = spec_seek_trace(w, statuses);
        let w1 = spec_seek_state(w, statuses[0]);
        let rest = statuses.drop_first();
        if statuses[0] is Playing {
            assert(tr[0] == Some(v));
            assert(w1.pending_seek_ms is None);
            lemma_no_pending_no_seek(w1, rest);
            assert forall|i: int| 1 <= i < statuses.len() implies #[trigger] tr[i] == (
            if statuses[i] is Playing && (forall|j: int|
                0 <= j < i ==> !(#[trigger] statuses[j] is Playing)) {
                Some(v)
            } else {
                None
            }) by {
                assert(tr[i] == spec_seek_trace(w1, rest)[i - 1]);
                assert(tr[i] is None);
                assert(statuses[0] is Playing);
            }
        } else {
            assert(w1 == w);
            lemma_pending_seek_applied_once(w1, v, rest);
            assert(tr[0] is None);
            assert(!(statuses[0] is Playing));
            assert forall|i: int| 1 <= i < statuses.len() implies #[trigger] tr[i] == (
            if statuses[i] is Playing && (forall|j: int|
                0 <= j < i ==> !(#[trigger] statuses[j] is Playing)) {
                Some(v)
            } else {
                None
            }) by {
                assert(tr[i] == spec_seek_trace(w1, rest)[i - 1]);
                assert(rest[i - 1] == statuses[i]);
                if statuses[i] is Playing {
                    if forall|j: int| 0 <= j < i ==> !(#[trigger] statuses[j] is Playing) {
                        assert(forall|j: int|
                            0 <= j < i - 1 ==> !(#[trigger] rest[j] is Playing)) by {
                            assert(forall|j: int|
                                0 <= j < i - 1 ==> rest[j] == #[trigger] statuses[j + 1]);
                        }
                        assert(tr[i] == Some(v));
                    } else {
                        let j0 = choose|j: int|
                            0 <= j < i && #[trigger] statuses[j] is Playing;
                        assert(j0 != 0);
                        assert(rest[j0 - 1] is Playing);
                        assert(!(forall|j: int|
                            0 <= j < i - 1 ==> !(#[trigger] rest[j] is Playing)));
                        assert(tr[i] is None);
                    }
                }
            }
        }
    }
}

/// The state event of one tick, if any: the new projection exactly when it
/// differs from the last one sent.
pub open spec fn spec_state_event(w: WorkerState, status: EngineStatus) -> Option<Projection> {
    if spec_project(status) != w.last_emitted {
        Some(spec_project(status))
    } else {
        None
    }
}

/// The state events over a sequence of polled statuses, one entry per tick.
pub open spec fn spec_state_trace(w: WorkerState, statuses: Seq<EngineStatus>) -> Seq<
    Option<Projection>,
>
    decreases statuses.len(),
{
    if statuses.len() == 0 {
        Seq::empty()
    } else {
        seq![spec_state_event(w, statuses[0])] + spec_state_trace(
            spec_tick_state(w, statuses[0]),
            statuses.drop_first(),
        )
    }
}

/// A run of ticks yields one state-trace entry per tick.
pub proof fn lemma_state_trace_len(w: WorkerState, statuses: Seq<EngineStatus>)
    ensures
        spec_state_trace(w, statuses).len() == statuses.len(),
    decreases statuses.len(),
{
    if statuses.len() > 0 {
        lemma_state_trace_len(spec_tick_state(w, statuses[0]), statuses.drop_first());
    }
}

/// The first state event of a run differs from what the worker last sent
/// before the run.
proof fn lemma_first_state_event_differs(w: WorkerState, statuses: Seq<EngineStatus>, i: int)
    requires
        0 <= i < statuses.len(),
        spec_state_trace(w, statuses)[i] is Some,
        forall|k: int| 0 <= k < i ==> #[trigger] spec_state_trace(w, statuses)[k] is None,
    ensures
        spec_state_trace(w, statuses)[i] != Some(w.last_emitted),
    decreases i,
{
    let tr = spec_state_trace(w, statuses);
    let w1 = spec_tick_state(w, statuses[0]);
    let rest = statuses.drop_first();
    lemma_state_trace_len(w, statuses);
    lemma_state_trace_len(w1, rest);
    if i == 0 {
        assert(tr[0] == spec_state_event(w, statuses[0]));
    } else {
        assert(tr[0] is None);
        assert(spec_project(statuses[0]) == w.last_emitted);
        assert(w1.last_emitted == w.last_emitted);
        assert forall|k: int| 0 <= k < i - 1 implies #[trigger] spec_state_trace(w1, rest)[k]
            is None by {
            assert(spec_state_trace(w1, rest)[k] == tr[k + 1]);
            assert(tr[k + 1] is None);
        }
        assert(spec_state_trace(w1, rest)[i - 1] == tr[i]);
        lemma_first_state_event_differs(w1, rest, i - 1);
    }
}

/// A state event is never emitted twice in a row with an identical triple:
/// between one emission and the next, the projection must have changed.
pub proof fn lemma_state_events_deduplicated(
    w: WorkerState,
    statuses: Seq<EngineStatus>,
    i: int,
    j: int,
)
    requires
        0 <= i < j < statuses.len(),
        spec_state_trace(w, statuses)[i] is Some,
        spec_state_trace(w, statuses)[j] is Some,
        forall|k: int| i < k < j ==> #[trigger] spec_state_trace(w, statuses)[k] is None,
    ensures
        spec_state_trace(w, statuses)[i] != spec_state_trace(w, statuses)[j],
    decreases i,
{
    let tr = spec_state_trace(w, statuses);
    let w1 = spec_tick_state(w, statuses[0]);
    let rest = statuses.drop_first();
    lemma_state_trace_len(w, statuses);
    lemma_state_trace_len(w1, rest);
    assert(forall|k: int| 0 <= k < rest.len() ==> spec_state_trace(w1, rest)[k] == #[trigger] tr[k
        + 1]);
    if i == 0 {
        let p0 = spec_project(statuses[0]);
        assert(tr[0] == Some(p0));
        assert(w1.last_emitted == p0);
        assert forall|k: int| 0 <= k < j - 1 implies #[trigger] spec_state_trace(w1, rest)[k]
            is None by {
            assert(spec_state_trace(w1, rest)[k] == tr[k + 1]);
            assert(tr[k + 1] is None);
        }
        assert(spec_state_trace(w1, rest)[j - 1] == tr[j]);
        lemma_first_state_event_differs(w1, rest, j - 1);
        assert(tr[j] != Some(p0));
    } else {
        assert forall|k: int| i - 1 < k < j - 1 implies #[trigger] spec_state_trace(w1, rest)[k]
            is None by {
            assert(spec_state_trace(w1, rest)[k] == tr[k + 1]);
            assert(tr[k + 1] is None);
        }
        assert(spec_state_trace(w1, rest)[i - 1] == tr[i]);
        assert(spec_state_trace(w1, rest)[j - 1] == tr[j]);
        lemma_state_events_deduplicated(w1, rest, i - 1, j - 1);
    }
}

/// An engine-reported error is emitted anew on every tick it persists —
/// error events bypass de-duplication — and no other status ever raises
/// one from the poll loop.
pub proof fn lemma_error_events_every_tick(
    w: WorkerState,
    status: EngineStatus,
    time_ms: i64,
    duration_ms: i64,
)
    ensures
        status is Error ==> spec_tick_events(w, status, time_ms, duration_ms)[0]
            == (WorkerEvent::Error { kind: ErrorKind::Playback }),
        !(status is Error) ==> forall|k: int|
            0 <= k < spec_tick_events(w, status, time_ms, duration_ms).len()
                ==> !(#[trigger] spec_tick_events(w, status, time_ms, duration_ms)[k] is Error),
{
    let evs = spec_tick_events(w, status, time_ms, duration_ms);
    let p = spec_project(status);
    let state_part: Seq<WorkerEvent> = if p != w.last_emitted {
        seq![WorkerEvent::State { playing: p.playing, buffering: p.buffering, ended: p.ended }]
    } else {
        Seq::empty()
    };
    let time_part: Seq<WorkerEvent> = if spec_time_due(w, status) {
        seq![WorkerEvent::Time { time_ms, duration_ms }]
    } else {
        Seq::empty()
    };
    if !(status is Error) {
        assert(evs =~= state_part + time_part);
        assert forall|k: int| 0 <= k < evs.len() implies !(#[trigger] evs[k] is Error) by {
            if k < state_part.len() {
                assert(evs[k] == state_part[0]);
            } else {
                assert(evs[k] == time_part[k - state_part.len()]);
            }
        }
    }
}

/// The number of time events over a sequence of polled statuses.
pub open spec fn spec_time_event_count(w: WorkerState, statuses: Seq<EngineStatus>) -> nat
    decreases statuses.len(),
{
    if statuses.len() == 0 {
        0
    } else {
        (if spec_time_due(w, statuses[0]) {
            1nat
        } else {
            0
        }) + spec_time_event_count(spec_tick_state(w, statuses[0]), statuses.drop_first())
    }
}

/// While continuously playing, time events come at exactly one per emission
/// period: over `n` playing ticks with the counter at `k`, exactly
/// `(n + k) / 10` go out — `floor(T)` over `T` whole seconds of ticks when
/// the counter starts at zero.
pub proof fn lemma_time_events_once_per_period(w: WorkerState, statuses: Seq<EngineStatus>)
    requires
        w.wf(),
        forall|i: int| 0 <= i < statuses.len() ==> #[trigger] statuses[i] is Playing,
    ensures
        spec_time_event_count(w, statuses) == (statuses.len() + w.time_tick) as int
            / TIME_EVENT_PERIOD_TICKS as int,
    decreases statuses.len(),
{
    if statuses.len() > 0 {
        assert(statuses[0] is Playing);
        let w1 = spec_tick_state(w, statuses[0]);
        assert(w1.wf());
        assert(forall|i: int|
            0 <= i < statuses.drop_first().len() ==> #[trigger] statuses.drop_first()[i]
                is Playing) by {
            assert(forall|i: int|
                0 <= i < statuses.drop_first().len() ==> statuses.drop_first()[i]
                    == #[trigger] statuses[i + 1]);
        }
        lemma_time_events_once_per_period(w1, statuses.drop_first());
    }
}

/// Never more than one time event per emission period: any run of at most
/// ten consecutive playing ticks emits at most one.
pub proof fn lemma_time_events_at_most_one_per_period(w: WorkerState, statuses: Seq<EngineStatus>)
    requires
        w.wf(),
        statuses.len() <= TIME_EVENT_PERIOD_TICKS,
        forall|i: int| 0 <= i < statuses.len() ==> #[trigger] statuses[i] is Playing,
    ensures
        spec_time_event_count(w, statuses) <= 1,
{
    lemma_time_events_once_per_period(w, statuses);
}

} // verus!
