use vstd::prelude::*;

verus! {

/// The log verbosity a command line may ask for.
#[derive(Debug, Clone, Copy, Default, PartialEq, Eq, Structural)]
pub enum LogLevel {
    Trace,
    Debug,
    #[default]
    Info,
    Warn,
    Error,
    Off,
}

/// The arguments common to engine applications: a log level and whatever
/// follows for the application itself.
#[derive(Debug)]
pub struct EngineArgs {
    pub log_level: LogLevel,
    pub args: Vec<String>,
}

impl EngineArgs {
    /// The arguments of a command line that gave none: `Info`, no extra arguments.
    pub fn defaults() -> (a: EngineArgs)
        ensures
            a.log_level == LogLevel::Info,
            a.args@.len() == 0,
    {
        EngineArgs { log_level: LogLevel::Info, args: Vec::new() }
    }
}

// ---------------------------------------------------------------------------
// Startup profiling.

/// The startup profile: when the first frame was presented, and whether the
/// profile was written.
#[derive(Debug, Clone, Copy, PartialEq, Eq, Structural)]
pub struct StartupState {
    pub presented: Option<u64>,
    pub completed: bool,
}

impl StartupState {
    pub fn new() -> (s: StartupState)
        ensures
            s.presented is None,
            !s.completed,
    {
        StartupState { presented: None, completed: false }
    }

}

/// Records the first presentation, `elapsed` after startup began; later
/// presentations, and any after completion, change nothing.
pub fn startup_presented(startup: &mut StartupState, elapsed: u64)
    ensures
        *final(startup) == presented_after(*old(startup), elapsed),
{
    if startup.completed {
        return;
    }
    if startup.presented.is_none() {
        startup.presented = Some(elapsed);
    }
}

/// The profile still has to be written: a frame was presented and it was
/// not written yet.
pub fn startup_needs_completion(startup: &StartupState) -> (b: bool)
    ensures
        b == needs_completion(*startup),
{
    !startup.completed && startup.presented.is_some()
}

/// Completes the profile, giving the presentation time to write it with;
/// nothing happens before a presentation.
pub fn complete_startup(startup: &mut StartupState) -> (presented: Option<u64>)
    ensures
        presented == old(startup).presented,
        *final(startup) == completed_after(*old(startup)),
{
    match startup.presented {
        Some(p) => {
            startup.completed = true;
            Some(p)
        },
        None => None,
    }
}

/// The startup profile is written at most once: a presentation makes it due,
/// completing it makes it done, and no later presentation makes it due again.
pub proof fn lemma_startup_once(s: StartupState, elapsed: u64)
    ensures
        !s.completed && s.presented is None ==> presented_after(s, elapsed).presented == Some(
            elapsed,
        ),
        presented_after(s, elapsed).presented is Some ==> completed_after(
            presented_after(s, elapsed),
        ).completed,
        completed_after(s).completed ==> !needs_completion(presented_after(completed_after(s), elapsed)),
{
}

/// The state after a presentation `elapsed` after startup.
pub open spec fn presented_after(s: StartupState, elapsed: u64) -> StartupState {
    StartupState {
        presented: if !s.completed && s.presented is None {
            Some(elapsed)
        } else {
            s.presented
        },
        completed: s.completed,
    }
}

/// The state after completing the profile.
pub open spec fn completed_after(s: StartupState) -> StartupState {
    StartupState { presented: s.presented, completed: s.completed || s.presented is Some }
}

pub open spec fn needs_completion(s: StartupState) -> bool {
    !s.completed && s.presented is Some
}

// ---------------------------------------------------------------------------
// CPU frame capture.

/// Where frame capture is: idle, asked to capture the next frame, or
/// recording one.
#[derive(Debug, Clone, Copy, PartialEq, Eq, Structural)]
pub enum CaptureState {
    Idle,
    Requested,
    Recording,
}

/// A frame being captured; ending it returns capture to idle.
#[derive(Debug)]
pub struct FrameCapture {
    started: (),
}

/// The capture state of the frame profiler.
#[derive(Debug)]
pub struct FrameCapturer {
    state: CaptureState,
}

impl View for FrameCapturer {
    type V = CaptureState;

    closed spec fn view(&self) -> CaptureState {
        self.state
    }
}

impl FrameCapturer {
    pub fn new() -> (c: FrameCapturer)
        ensures
            c@ == CaptureState::Idle,
    {
        FrameCapturer { state: CaptureState::Idle }
    }

}

/// Asks for the next frame to be captured; ignored unless idle.
pub fn capture_next_frame(capturer: &mut FrameCapturer)
    ensures
        final(capturer)@ == after_request(old(capturer)@),
{
    if capturer.state == CaptureState::Idle {
        capturer.state = CaptureState::Requested;
    }
}

/// A capture was asked for or is running.
pub fn capture_pending(capturer: &FrameCapturer) -> (b: bool)
    ensures
        b == (capturer@ != CaptureState::Idle),
{
    capturer.state != CaptureState::Idle
}

pub fn is_recording(capturer: &FrameCapturer) -> (b: bool)
    ensures
        b == (capturer@ == CaptureState::Recording),
{
    capturer.state == CaptureState::Recording
}

/// Starts recording a frame, but only when one was asked for.
pub fn begin_frame(capturer: &mut FrameCapturer) -> (capture: Option<FrameCapture>)
    ensures
        capture is Some <==> after_begin(old(capturer)@) is Some,
        capture is Some ==> Some(final(capturer)@) == after_begin(old(capturer)@),
        capture is None ==> final(capturer)@ == old(capturer)@,
{
    if capturer.state != CaptureState::Requested {
        return None;
    }
    capturer.state = CaptureState::Recording;
    Some(FrameCapture { started: () })
}

/// Ends a captured frame: capture is idle again.
pub fn end_frame(capturer: &mut FrameCapturer, capture: FrameCapture)
    ensures
        final(capturer)@ == CaptureState::Idle,
{
    capturer.state = CaptureState::Idle;
}

/// The state after a capture is asked for.
pub open spec fn after_request(s: CaptureState) -> CaptureState {
    if s == CaptureState::Idle {
        CaptureState::Requested
    } else {
        s
    }
}

/// The state after trying to begin a frame, if it began.
pub open spec fn after_begin(s: CaptureState) -> Option<CaptureState> {
    if s == CaptureState::Requested {
        Some(CaptureState::Recording)
    } else {
        None
    }
}

/// A frame is recorded only when asked for: from idle a begin fails, a
/// request then a begin records, and while recording neither a second
/// begin nor a new request changes anything; ending returns to idle, where
/// nothing is pending.
pub proof fn lemma_capture_protocol(s: CaptureState)
    ensures
        after_begin(CaptureState::Idle) is None,
        after_begin(after_request(CaptureState::Idle)) == Some(CaptureState::Recording),
        after_begin(CaptureState::Recording) is None,
        after_request(CaptureState::Recording) == CaptureState::Recording,
        after_request(after_request(s)) == after_request(s),
{
}

/// What happens to the frame profiler: a capture is asked for, a frame
/// begins, or the capture of a frame ends.
#[derive(Debug, Clone, Copy, PartialEq, Eq, Structural)]
pub enum CaptureEvent {
    Request,
    Begin,
    End,
}

/// The capture state after `events` from a fresh profiler, and how many
/// frame captures are alive: begun and not yet ended.
pub open spec fn capture_run(events: Seq<CaptureEvent>) -> (CaptureState, int)
    decreases events.len(),
{
    if events.len() == 0 {
        (CaptureState::Idle, 0)
    } else {
        let (s, alive) = capture_run(events.drop_last());
        match events.last() {
            CaptureEvent::Request => (after_request(s), alive),
            CaptureEvent::Begin => match after_begin(s) {
                Some(t) => (t, alive + 1),
                None => (s, alive),
            },
            CaptureEvent::End => (CaptureState::Idle, alive - 1),
        }
    }
}

/// Each end closes a capture that is alive, as only a begun capture can be
/// ended.
pub open spec fn ends_match(events: Seq<CaptureEvent>) -> bool {
    forall|i: int|
        0 <= i < events.len() && events[i] == CaptureEvent::End ==> #[trigger] capture_run(
            events.take(i),
        ).1 > 0
}

/// Over any run of requests, begins and ends: at most one capture is alive
/// at a time, the profiler records exactly while one is alive, a capture
/// asked for has not begun, and something is pending exactly while a capture
/// is asked for or alive.
pub proof fn lemma_capture_runs(events: Seq<CaptureEvent>)
    requires
        ends_match(events),
    ensures
        ({
            let (s, alive) = capture_run(events);
            &&& 0 <= alive <= 1
            &&& (s == CaptureState::Recording <==> alive == 1)
            &&& (s == CaptureState::Requested ==> alive == 0)
            &&& (s != CaptureState::Idle <==> (s == CaptureState::Requested || alive == 1))
        }),
    decreases events.len(),
{
    if events.len() > 0 {
        let prefix = events.drop_last();
        assert forall|i: int|
            0 <= i < prefix.len() && prefix[i] == CaptureEvent::End implies #[trigger] capture_run(
            prefix.take(i),
        ).1 > 0 by {
            assert(prefix.take(i) =~= events.take(i));
            assert(events[i] == CaptureEvent::End);
        }
        lemma_capture_runs(prefix);
        if events.last() == CaptureEvent::End {
            assert(events.take(events.len() - 1) =~= prefix);
            assert(events[events.len() - 1] == CaptureEvent::End);
        }
    }
}

} // verus!
