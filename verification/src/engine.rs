//! The bridge to a real-time audio output device: at most one active
//! stream, a per-buffer fill routine that duplicates one mono sample to
//! both stereo channels, and the control-side state machine
//! (open to running to aborted/completed to closed).
//!
//! The device driver itself lives outside this crate; whatever drives a
//! stream calls `fill` once per buffer period, exactly as a driver would
//! invoke a registered callback, and observes the same abort/completion
//! signalling.

use vstd::prelude::*;

use crate::signal::Signal;

verus! {

/// Frames per device buffer: each buffer holds `2 * FRAMES_PER_BUFFER`
/// interleaved stereo samples.
pub const FRAMES_PER_BUFFER: usize = 64;

/// Where a stream stands.  A stream that was never opened is simply
/// absent from the engine.
#[derive(Clone, Copy, Debug, PartialEq, Eq, Structural)]
pub enum StreamState {
    /// Open but not running.
    Stopped,
    /// Producing samples buffer by buffer.
    Running,
    /// The sample sequence ran out before a buffer was full; the fill
    /// routine signalled the driver to abort.
    Aborted,
    /// A frame callback reported graceful completion.
    Completed,
    /// Device resources released; the stream is spent.
    Closed,
}

/// What a buffer fill told the driver.
#[derive(Clone, Copy, Debug, PartialEq, Eq, Structural)]
pub enum FillOutcome {
    /// The buffer was filled; keep the stream going.
    Continue,
    /// The sequence ran dry mid-buffer; abort the stream.
    Abort,
    /// A frame callback asked for graceful completion.
    Complete,
}

/// The next state after a control-side `start`.
pub open spec fn started(st: StreamState) -> StreamState {
    if st == StreamState::Stopped {
        StreamState::Running
    } else {
        st
    }
}

/// The next state after a control-side `stop`.
pub open spec fn stopped(st: StreamState) -> StreamState {
    if st == StreamState::Running {
        StreamState::Stopped
    } else {
        st
    }
}

/// The engine's time counter saturates rather than wraps.
pub open spec fn time_after(t: u64, k: nat) -> u64 {
    if t + k > u64::MAX {
        u64::MAX
    } else {
        (t + k) as u64
    }
}

/// One output stream: a sample sequence, its control state, and how many
/// frames have been delivered (the stream clock, in frames).
pub struct Stream {
    state: StreamState,
    data: Signal,
    frames_done: u64,
}

impl Stream {
    pub closed spec fn wf(self) -> bool {
        self.data.wf()
    }

    pub closed spec fn state_spec(self) -> StreamState {
        self.state
    }

    /// The samples the stream has yet to deliver.
    pub closed spec fn model(self) -> Seq<i32> {
        self.data.model()
    }

    /// Frames delivered so far.
    pub closed spec fn time_spec(self) -> u64 {
        self.frames_done
    }

    /// An open, stopped stream over `data`.
    pub fn new(data: Signal) -> (r: Stream)
        requires
            data.wf(),
        ensures
            r.wf(),
            r.state_spec() == StreamState::Stopped,
            r.model() == data.model(),
            r.time_spec() == 0,
    {
        Stream { state: StreamState::Stopped, data, frames_done: 0 }
    }

    /// Start a stopped stream; any other state is left alone.
    pub fn start(&mut self)
        requires
            old(self).wf(),
        ensures
            final(self).wf(),
            final(self).state_spec() == started(old(self).state_spec()),
            final(self).model() == old(self).model(),
            final(self).time_spec() == old(self).time_spec(),
    {
        if matches!(self.state, StreamState::Stopped) {
            self.state = StreamState::Running;
        }
    }

    /// Stop a running stream; any other state is left alone.
    pub fn stop(&mut self)
        requires
            old(self).wf(),
        ensures
            final(self).wf(),
            final(self).state_spec() == stopped(old(self).state_spec()),
            final(self).model() == old(self).model(),
            final(self).time_spec() == old(self).time_spec(),
    {
        if matches!(self.state, StreamState::Running) {
            self.state = StreamState::Stopped;
        }
    }

    /// Release the stream: it is spent afterwards.
    pub fn close(&mut self)
        requires
            old(self).wf(),
        ensures
            final(self).wf(),
            final(self).state_spec() == StreamState::Closed,
            final(self).model() == old(self).model(),
            final(self).time_spec() == old(self).time_spec(),
    {
        self.state = StreamState::Closed;
    }

    /// Only a running stream is active.
    pub fn is_active(&self) -> (r: bool)
        ensures
            r == (self.state_spec() == StreamState::Running),
    {
        matches!(self.state, StreamState::Running)
    }

    /// The stream clock: frames delivered so far.
    pub fn time(&self) -> (r: u64)
        ensures
            r == self.time_spec(),
    {
        self.frames_done
    }

    /// The per-buffer fill routine, as the device driver would call it
    /// once per buffer period on a running stream: one sample per frame,
    /// written to both stereo channels.  If the sequence runs out before
    /// the buffer is full, the remaining frames are left untouched and
    /// the stream aborts.  No allocation, no blocking: index arithmetic
    /// and sample reads alone.
    pub fn fill(&mut self, buffer: &mut Vec<i32>, frames: usize) -> (r: FillOutcome)
        requires
            old(self).wf(),
            old(self).state_spec() == StreamState::Running,
            old(buffer)@.len() == 2 * frames,
        ensures
            final(self).wf(),
            final(buffer)@.len() == old(buffer)@.len(),
            old(self).model().len() >= frames ==> {
                &&& r == FillOutcome::Continue
                &&& final(self).state_spec() == StreamState::Running
                &&& final(self).model() == old(self).model().skip(frames as int)
                &&& final(self).time_spec() == time_after(old(self).time_spec(), frames as nat)
                &&& forall|i: int|
                    0 <= i < frames ==> final(buffer)@[2 * i] == old(self).model()[i]
                        && final(buffer)@[2 * i + 1] == old(self).model()[i]
            },
            old(self).model().len() < frames ==> {
                &&& r == FillOutcome::Abort
                &&& final(self).state_spec() == StreamState::Aborted
                &&& final(self).model().len() == 0
                &&& final(self).time_spec() == time_after(
                    old(self).time_spec(),
                    old(self).model().len(),
                )
                &&& forall|i: int|
                    0 <= i < old(self).model().len() ==> final(buffer)@[2 * i] == old(
                        self,
                    ).model()[i] && final(buffer)@[2 * i + 1] == old(self).model()[i]
                &&& forall|k: int|
                    2 * old(self).model().len() <= k < final(buffer)@.len() ==> final(buffer)@[k]
                        == old(buffer)@[k]
            },
    {
        let ghost m = self.data.model();
        let ghost ob = buffer@;
        let blen: usize = buffer.len();
        let mut i: usize = 0;
        while i < frames
            invariant
                0 <= i <= frames,
                self.wf(),
                self.state == StreamState::Running,
                self.frames_done == old(self).frames_done,
                m == old(self).model(),
                ob == old(buffer)@,
                buffer@.len() == 2 * frames,
                old(buffer)@.len() == 2 * frames,
                blen == 2 * frames,
                i <= m.len(),
                self.data.model() == m.skip(i as int),
                forall|k: int|
                    0 <= k < i ==> buffer@[2 * k] == m[k] && buffer@[2 * k + 1] == m[k],
                forall|k: int| 2 * i <= k < buffer@.len() ==> buffer@[k] == ob[k],
            decreases frames - i,
        {
            match self.data.next() {
                Some(x) => {
                    proof {
                        assert(m.skip(i as int)[0] == m[i as int]);
                        assert(m.skip(i as int).drop_first() =~= m.skip(i as int + 1));
                    }
                    buffer.set(2 * i, x);
                    buffer.set(2 * i + 1, x);
                    i = i + 1;
                },
                None => {
                    proof {
                        assert(m.skip(i as int).len() == 0);
                        assert(m.len() == i);
                    }
                    self.state = StreamState::Aborted;
                    self.frames_done = match self.frames_done.checked_add(i as u64) {
                        Some(t) => t,
                        None => u64::MAX,
                    };
                    return FillOutcome::Abort;
                },
            }
        }
        proof {
            assert(m.len() >= frames);
        }
        self.frames_done = match self.frames_done.checked_add(frames as u64) {
            Some(t) => t,
            None => u64::MAX,
        };
        FillOutcome::Continue
    }
}

/// A per-frame sample source for callback streams: asked once per frame
/// with the frame index and the device's clock and DAC timestamps (in
/// ticks), it answers the sample to play, or nothing to complete the
/// stream gracefully at exactly that frame.
///
/// Each source chooses an abstract model of its own state; its answer
/// and its next state are functions of that model and of the arguments
/// it was asked with, so a fill routine's output can be pinned to the
/// source's answers, whatever the source is.
pub trait FrameSource {
    /// The abstract state the source's answers are a function of.
    type Model;

    /// The source's current abstract state.
    spec fn model_of(&self) -> Self::Model;

    /// Whatever the source needs to hold of itself between frames.
    spec fn inv(&self) -> bool;

    /// What a source in state `m` answers when asked for `frame` at the
    /// given times.
    spec fn answer(m: Self::Model, frame: usize, now: u64, dac: u64) -> Option<i32>;

    /// The source's state after being asked for `frame` at the given
    /// times.
    spec fn step(m: Self::Model, frame: usize, now: u64, dac: u64) -> Self::Model;

    fn next_frame(&mut self, frame: usize, now: u64, dac: u64) -> (r: Option<i32>)
        requires
            old(self).inv(),
        ensures
            final(self).inv(),
            r == Self::answer(old(self).model_of(), frame, now, dac),
            final(self).model_of() == Self::step(old(self).model_of(), frame, now, dac),
    ;
}

/// A signal serves as a frame source by ignoring the timing information:
/// its model is its sample sequence, its answer the sequence's head.
impl FrameSource for Signal {
    type Model = Seq<i32>;

    open spec fn model_of(&self) -> Seq<i32> {
        self.model()
    }

    open spec fn inv(&self) -> bool {
        self.wf()
    }

    open spec fn answer(m: Seq<i32>, frame: usize, now: u64, dac: u64) -> Option<i32> {
        if m.len() == 0 {
            None
        } else {
            Some(m[0])
        }
    }

    open spec fn step(m: Seq<i32>, frame: usize, now: u64, dac: u64) -> Seq<i32> {
        if m.len() == 0 {
            m
        } else {
            m.drop_first()
        }
    }

    fn next_frame(&mut self, frame: usize, now: u64, dac: u64) -> (r: Option<i32>) {
        self.next()
    }
}

/// The state of a frame source after the first `k` frames of a buffer
/// fill that started from state `m`: stepped once per frame, in frame
/// order, with the fill's clock and DAC times.
pub open spec fn source_after<F: FrameSource>(
    m: F::Model,
    now: u64,
    dac: u64,
    k: int,
) -> F::Model
    decreases k,
{
    if k <= 0 {
        m
    } else {
        F::step(source_after::<F>(m, now, dac, k - 1), (k - 1) as usize, now, dac)
    }
}

/// The answer a frame source gives at frame `i` of a buffer fill that
/// started from state `m`.
pub open spec fn source_answer<F: FrameSource>(
    m: F::Model,
    now: u64,
    dac: u64,
    i: int,
) -> Option<i32> {
    F::answer(source_after::<F>(m, now, dac, i), i as usize, now, dac)
}

/// How far a source starting at `m` gets through a `frames`-frame
/// buffer, scanning from frame `i`: the first declined frame index, or
/// `frames` when every frame is answered.
pub open spec fn fill_extent<F: FrameSource>(
    m: F::Model,
    now: u64,
    dac: u64,
    i: int,
    frames: int,
) -> int
    decreases frames - i,
{
    if i < 0 || i >= frames {
        frames
    } else if source_answer::<F>(m, now, dac, i) is None {
        i
    } else {
        fill_extent::<F>(m, now, dac, i + 1, frames)
    }
}

/// A fill that answered every frame below `k` and declined at `k` (when
/// `k` is short of the buffer) filled exactly `fill_extent` frames.
proof fn lemma_fill_extent_of<F: FrameSource>(
    m: F::Model,
    now: u64,
    dac: u64,
    j: int,
    frames: int,
    k: int,
)
    requires
        0 <= j <= k <= frames,
        forall|i: int| j <= i < k ==> (#[trigger] source_answer::<F>(m, now, dac, i)) is Some,
        k < frames ==> source_answer::<F>(m, now, dac, k) is None,
    ensures
        fill_extent::<F>(m, now, dac, j, frames) == k,
    decreases k - j,
{
    if j < k {
        lemma_fill_extent_of::<F>(m, now, dac, j + 1, frames, k);
    }
}

/// Whether a drive of `b` buffers from state `m` has hit a completed
/// (short) buffer.
pub open spec fn drive_done<F: FrameSource>(
    m: F::Model,
    now: u64,
    dac: u64,
    frames: int,
    b: int,
) -> bool
    decreases b, 0int,
{
    if b <= 0 {
        false
    } else {
        drive_done::<F>(m, now, dac, frames, b - 1) || fill_extent::<F>(
            drive_state::<F>(m, now, dac, frames, b - 1),
            now,
            dac,
            0,
            frames,
        ) < frames
    }
}

/// The source state after a drive of `b` buffers from state `m`; once a
/// buffer completes the stream, later buffers change nothing.
pub open spec fn drive_state<F: FrameSource>(
    m: F::Model,
    now: u64,
    dac: u64,
    frames: int,
    b: int,
) -> F::Model
    decreases b, 1int,
{
    if b <= 0 {
        m
    } else if drive_done::<F>(m, now, dac, frames, b - 1) {
        drive_state::<F>(m, now, dac, frames, b - 1)
    } else {
        let prev = drive_state::<F>(m, now, dac, frames, b - 1);
        let k = fill_extent::<F>(prev, now, dac, 0, frames);
        source_after::<F>(
            prev,
            now,
            dac,
            k + if k < frames {
                1int
            } else {
                0int
            },
        )
    }
}

/// The frames delivered over a drive of `b` buffers from state `m`.
pub open spec fn drive_frames<F: FrameSource>(
    m: F::Model,
    now: u64,
    dac: u64,
    frames: int,
    b: int,
) -> int
    decreases b, 2int,
{
    if b <= 0 {
        0
    } else if drive_done::<F>(m, now, dac, frames, b - 1) {
        drive_frames::<F>(m, now, dac, frames, b - 1)
    } else {
        drive_frames::<F>(m, now, dac, frames, b - 1) + fill_extent::<F>(
            drive_state::<F>(m, now, dac, frames, b - 1),
            now,
            dac,
            0,
            frames,
        )
    }
}

/// Once a drive has completed, every longer drive is completed too and
/// leaves the state, the flag and the delivered count untouched.
proof fn lemma_drive_frozen<F: FrameSource>(
    m: F::Model,
    now: u64,
    dac: u64,
    frames: int,
    j: int,
    b: int,
)
    requires
        0 <= j <= b,
        drive_done::<F>(m, now, dac, frames, j),
    ensures
        drive_done::<F>(m, now, dac, frames, b),
        drive_state::<F>(m, now, dac, frames, b) == drive_state::<F>(m, now, dac, frames, j),
        drive_frames::<F>(m, now, dac, frames, b) == drive_frames::<F>(m, now, dac, frames, j),
    decreases b - j,
{
    if j < b {
        lemma_drive_frozen::<F>(m, now, dac, frames, j, b - 1);
    }
}

/// Saturating additions compose: adding in two steps saturates exactly
/// where adding once does.
proof fn lemma_time_after_add(t: u64, x: nat, y: nat)
    ensures
        time_after(time_after(t, x), y) == time_after(t, x + y),
{
}

/// Fill one buffer period from a frame source: the source is asked once
/// per frame, in increasing frame order, and each answered sample goes
/// to both stereo channels of its frame; the first declined frame
/// completes the stream exactly there, the source is not asked again,
/// and the remaining frames are left untouched.  The filled frame count
/// comes back alongside the outcome.
pub fn fill_from_source<F: FrameSource>(
    src: &mut F,
    buffer: &mut Vec<i32>,
    frames: usize,
    now: u64,
    dac: u64,
) -> (r: (FillOutcome, usize))
    requires
        old(src).inv(),
        old(buffer)@.len() == 2 * frames,
    ensures
        final(src).inv(),
        final(buffer)@.len() == old(buffer)@.len(),
        (r.0 == FillOutcome::Continue && r.1 == frames) || (r.0 == FillOutcome::Complete && r.1
            < frames),
        forall|i: int|
            0 <= i < r.1 ==> #[trigger] final(buffer)@[2 * i] == final(buffer)@[2 * i + 1]
                && Some(final(buffer)@[2 * i]) == source_answer::<F>(
                old(src).model_of(),
                now,
                dac,
                i,
            ),
        r.0 == FillOutcome::Complete ==> source_answer::<F>(
            old(src).model_of(),
            now,
            dac,
            r.1 as int,
        ) is None,
        final(src).model_of() == source_after::<F>(
            old(src).model_of(),
            now,
            dac,
            r.1 + if r.0 == FillOutcome::Complete {
                1int
            } else {
                0int
            },
        ),
        forall|k: int|
            2 * r.1 <= k < final(buffer)@.len() ==> #[trigger] final(buffer)@[k] == old(
                buffer,
            )@[k],
{
    let ghost m0 = src.model_of();
    let blen: usize = buffer.len();
    let mut i: usize = 0;
    while i < frames
        invariant
            0 <= i <= frames,
            src.inv(),
            src.model_of() == source_after::<F>(m0, now, dac, i as int),
            m0 == old(src).model_of(),
            buffer@.len() == 2 * frames,
            old(buffer)@.len() == 2 * frames,
            blen == 2 * frames,
            forall|k: int|
                0 <= k < i ==> #[trigger] buffer@[2 * k] == buffer@[2 * k + 1] && Some(
                    buffer@[2 * k],
                ) == source_answer::<F>(m0, now, dac, k),
            forall|k: int| 2 * i <= k < buffer@.len() ==> #[trigger] buffer@[k] == old(buffer)@[k],
        decreases frames - i,
    {
        let r = src.next_frame(i, now, dac);
        proof {
            assert(source_after::<F>(m0, now, dac, i as int + 1) == F::step(
                source_after::<F>(m0, now, dac, i as int),
                i,
                now,
                dac,
            ));
            assert(r == source_answer::<F>(m0, now, dac, i as int));
        }
        match r {
            Some(x) => {
                buffer.set(2 * i, x);
                buffer.set(2 * i + 1, x);
                i = i + 1;
            },
            None => {
                return (FillOutcome::Complete, i);
            },
        }
    }
    (FillOutcome::Continue, frames)
}

/// A callback-driven stream: the same control state machine as a
/// sequence stream, fed frame by frame from a `FrameSource`.  Its
/// graceful end is `Completed`, distinct from the `Aborted` end of an
/// exhausted sample sequence.
pub struct CbStream<F: FrameSource> {
    state: StreamState,
    source: F,
    frames_done: u64,
}

impl<F: FrameSource> CbStream<F> {
    pub closed spec fn wf(self) -> bool {
        self.source.inv()
    }

    pub closed spec fn state_spec(self) -> StreamState {
        self.state
    }

    /// Frames delivered so far.
    pub closed spec fn time_spec(self) -> u64 {
        self.frames_done
    }

    /// The abstract state of the stream's frame source.
    pub closed spec fn source_model(self) -> F::Model {
        self.source.model_of()
    }

    /// An open, stopped stream over `source`.
    pub fn new(source: F) -> (r: CbStream<F>)
        requires
            source.inv(),
        ensures
            r.wf(),
            r.state_spec() == StreamState::Stopped,
            r.time_spec() == 0,
            r.source_model() == source.model_of(),
    {
        CbStream { state: StreamState::Stopped, source, frames_done: 0 }
    }

    /// Start a stopped stream; any other state is left alone.
    pub fn start(&mut self)
        requires
            old(self).wf(),
        ensures
            final(self).wf(),
            final(self).state_spec() == started(old(self).state_spec()),
            final(self).time_spec() == old(self).time_spec(),
            final(self).source_model() == old(self).source_model(),
    {
        if matches!(self.state, StreamState::Stopped) {
            self.state = StreamState::Running;
        }
    }

    /// Stop a running stream; any other state is left alone.
    pub fn stop(&mut self)
        requires
            old(self).wf(),
        ensures
            final(self).wf(),
            final(self).state_spec() == stopped(old(self).state_spec()),
            final(self).time_spec() == old(self).time_spec(),
            final(self).source_model() == old(self).source_model(),
    {
        if matches!(self.state, StreamState::Running) {
            self.state = StreamState::Stopped;
        }
    }

    /// Release the stream: it is spent afterwards; its source and clock
    /// keep their final values.
    pub fn close(&mut self)
        requires
            old(self).wf(),
        ensures
            final(self).wf(),
            final(self).state_spec() == StreamState::Closed,
            final(self).time_spec() == old(self).time_spec(),
            final(self).source_model() == old(self).source_model(),
    {
        self.state = StreamState::Closed;
    }

    /// Only a running stream is active.
    pub fn is_active(&self) -> (r: bool)
        ensures
            r == (self.state_spec() == StreamState::Running),
    {
        matches!(self.state, StreamState::Running)
    }

    /// The stream clock: frames delivered so far.
    pub fn time(&self) -> (r: u64)
        ensures
            r == self.time_spec(),
    {
        self.frames_done
    }

    /// The per-buffer fill routine for a callback stream: the source is
    /// asked once per frame, in increasing frame order, and each answer
    /// lands on both stereo channels of its frame; the first declined
    /// frame completes the stream gracefully exactly there, the frames
    /// past it are untouched, and the stream clock advances by exactly
    /// the filled count, which comes back alongside the outcome.
    pub fn fill(&mut self, buffer: &mut Vec<i32>, frames: usize, now: u64, dac: u64) -> (r: (
        FillOutcome,
        usize,
    ))
        requires
            old(self).wf(),
            old(self).state_spec() == StreamState::Running,
            old(buffer)@.len() == 2 * frames,
        ensures
            final(self).wf(),
            final(buffer)@.len() == old(buffer)@.len(),
            (r.0 == FillOutcome::Continue && r.1 == frames) || (r.0 == FillOutcome::Complete
                && r.1 < frames),
            r.0 == FillOutcome::Continue ==> final(self).state_spec() == StreamState::Running,
            r.0 == FillOutcome::Complete ==> final(self).state_spec() == StreamState::Completed
                && source_answer::<F>(old(self).source_model(), now, dac, r.1 as int) is None,
            final(self).time_spec() == time_after(old(self).time_spec(), r.1 as nat),
            final(self).source_model() == source_after::<F>(
                old(self).source_model(),
                now,
                dac,
                r.1 + if r.0 == FillOutcome::Complete {
                    1int
                } else {
                    0int
                },
            ),
            forall|i: int|
                0 <= i < r.1 ==> #[trigger] final(buffer)@[2 * i] == final(buffer)@[2 * i + 1]
                    && Some(final(buffer)@[2 * i]) == source_answer::<F>(
                    old(self).source_model(),
                    now,
                    dac,
                    i,
                ),
            forall|j: int|
                2 * r.1 <= j < final(buffer)@.len() ==> #[trigger] final(buffer)@[j] == old(
                    buffer,
                )@[j],
    {
        let (outcome, filled) = fill_from_source(&mut self.source, buffer, frames, now, dac);
        match outcome {
            FillOutcome::Continue => {
                self.frames_done = match self.frames_done.checked_add(frames as u64) {
                    Some(t) => t,
                    None => u64::MAX,
                };
                (FillOutcome::Continue, filled)
            },
            _ => {
                self.state = StreamState::Completed;
                self.frames_done = match self.frames_done.checked_add(filled as u64) {
                    Some(t) => t,
                    None => u64::MAX,
                };
                (FillOutcome::Complete, filled)
            },
        }
    }

    /// Drive a fresh stream in the driver's place: start it, fill buffer
    /// after buffer of `frames` frames until the source completes the
    /// stream or `max_buffers` buffers have gone by, then close it.
    /// True comes back exactly when the source completed within the
    /// budget; the budget stands in for the wall-clock patience of a
    /// control loop polling a real device.  A blocking convenience for
    /// the control context only, never part of the real-time path.
    pub fn play_all(&mut self, frames: usize, now: u64, dac: u64, max_buffers: usize) -> (r:
        bool)
        requires
            old(self).wf(),
            old(self).state_spec() == StreamState::Stopped,
            1 <= frames,
            2 * frames <= usize::MAX,
        ensures
            final(self).wf(),
            final(self).state_spec() == StreamState::Closed,
            r == drive_done::<F>(
                old(self).source_model(),
                now,
                dac,
                frames as int,
                max_buffers as int,
            ),
            final(self).source_model() == drive_state::<F>(
                old(self).source_model(),
                now,
                dac,
                frames as int,
                max_buffers as int,
            ),
            final(self).time_spec() == time_after(
                old(self).time_spec(),
                drive_frames::<F>(
                    old(self).source_model(),
                    now,
                    dac,
                    frames as int,
                    max_buffers as int,
                ) as nat,
            ),
    {
        let ghost m0 = self.source.model_of();
        let ghost t0 = self.frames_done;
        self.start();
        let cap: usize = 2 * frames;
        let mut buffer: Vec<i32> = Vec::new();
        let mut k: usize = 0;
        while k < cap
            invariant
                0 <= k <= cap,
                buffer@.len() == k,
            decreases cap - k,
        {
            buffer.push(0);
            k = k + 1;
        }
        proof {
            assert(!drive_done::<F>(m0, now, dac, frames as int, 0));
            assert(drive_state::<F>(m0, now, dac, frames as int, 0) == m0);
            assert(drive_frames::<F>(m0, now, dac, frames as int, 0) == 0);
        }
        let mut b: usize = 0;
        let mut finished = false;
        while b < max_buffers && !finished
            invariant
                0 <= b <= max_buffers,
                1 <= frames,
                2 * frames <= usize::MAX,
                buffer@.len() == 2 * frames,
                self.wf(),
                m0 == old(self).source_model(),
                t0 == old(self).time_spec(),
                finished == drive_done::<F>(m0, now, dac, frames as int, b as int),
                self.state_spec() == if finished {
                    StreamState::Completed
                } else {
                    StreamState::Running
                },
                self.source_model() == drive_state::<F>(m0, now, dac, frames as int, b as int),
                0 <= drive_frames::<F>(m0, now, dac, frames as int, b as int),
                self.time_spec() == time_after(
                    t0,
                    drive_frames::<F>(m0, now, dac, frames as int, b as int) as nat,
                ),
            decreases max_buffers - b,
        {
            let ghost prev = self.source_model();
            let (outcome, filled) = self.fill(&mut buffer, frames, now, dac);
            proof {
                assert forall|i: int| 0 <= i < filled implies (#[trigger] source_answer::<F>(
                    prev,
                    now,
                    dac,
                    i,
                )) is Some by {
                    assert(Some(buffer@[2 * i]) == source_answer::<F>(prev, now, dac, i));
                }
                lemma_fill_extent_of::<F>(prev, now, dac, 0, frames as int, filled as int);
                assert(!drive_done::<F>(m0, now, dac, frames as int, b as int));
                assert(drive_state::<F>(m0, now, dac, frames as int, b as int + 1)
                    == source_after::<F>(
                    prev,
                    now,
                    dac,
                    filled + if filled < frames {
                        1int
                    } else {
                        0int
                    },
                ));
                assert(drive_done::<F>(m0, now, dac, frames as int, b as int + 1) == (
                filled < frames));
                assert(drive_frames::<F>(m0, now, dac, frames as int, b as int + 1)
                    == drive_frames::<F>(m0, now, dac, frames as int, b as int) + filled);
                lemma_time_after_add(
                    t0,
                    drive_frames::<F>(m0, now, dac, frames as int, b as int) as nat,
                    filled as nat,
                );
            }
            if matches!(outcome, FillOutcome::Complete) {
                finished = true;
            }
            b = b + 1;
        }
        proof {
            if finished && b < max_buffers {
                lemma_drive_frozen::<F>(m0, now, dac, frames as int, b as int, max_buffers as int);
            }
        }
        self.close();
        finished
    }
}

/// Owns at most one output stream and forwards the control operations to
/// it; the absent stream answers inactive, time zero, and lets the
/// control calls pass without effect.
pub struct StreamEngine {
    current_stream: Option<Stream>,
}

impl StreamEngine {
    pub closed spec fn current(self) -> Option<Stream> {
        self.current_stream
    }

    pub open spec fn wf(self) -> bool {
        self.current() matches Some(s) ==> s.wf()
    }

    /// The engine is active exactly when it holds a running stream.
    pub open spec fn active(self) -> bool {
        self.current() matches Some(s) && s.state_spec() == StreamState::Running
    }

    /// An engine with no stream.
    pub fn new() -> (r: StreamEngine)
        ensures
            r.wf(),
            r.current() is None,
    {
        StreamEngine { current_stream: None }
    }

    /// Open a new stopped stream over `data`, replacing whatever stream
    /// was there.
    pub fn new_stream(&mut self, data: Signal)
        requires
            old(self).wf(),
            data.wf(),
        ensures
            final(self).wf(),
            final(self).current() matches Some(s) && s.state_spec() == StreamState::Stopped
                && s.model() == data.model() && s.time_spec() == 0,
    {
        self.current_stream = Some(Stream::new(data));
    }

    /// Start the held stream, if any.
    pub fn start(&mut self)
        requires
            old(self).wf(),
        ensures
            final(self).wf(),
            old(self).current() is None ==> final(self).current() is None,
            old(self).current() matches Some(s) ==> final(self).current() matches Some(t)
                && t.state_spec() == started(s.state_spec()) && t.model() == s.model()
                && t.time_spec() == s.time_spec(),
    {
        match &mut self.current_stream {
            Some(s) => s.start(),
            None => {},
        }
    }

    /// Stop the held stream, if any.
    pub fn stop(&mut self)
        requires
            old(self).wf(),
        ensures
            final(self).wf(),
            old(self).current() is None ==> final(self).current() is None,
            old(self).current() matches Some(s) ==> final(self).current() matches Some(t)
                && t.state_spec() == stopped(s.state_spec()) && t.model() == s.model()
                && t.time_spec() == s.time_spec(),
    {
        match &mut self.current_stream {
            Some(s) => s.stop(),
            None => {},
        }
    }

    /// Release the held stream and clear it.
    pub fn close(&mut self)
        requires
            old(self).wf(),
        ensures
            final(self).wf(),
            final(self).current() is None,
    {
        match &mut self.current_stream {
            Some(s) => s.close(),
            None => {},
        }
        self.current_stream = None;
    }

    /// Whether a held stream is running; no stream answers `false`.
    pub fn is_active(&self) -> (r: bool)
        ensures
            r == self.active(),
    {
        match &self.current_stream {
            Some(s) => s.is_active(),
            None => false,
        }
    }

    /// The held stream's clock, in frames; no stream answers 0.
    pub fn time(&self) -> (r: u64)
        ensures
            self.current() matches Some(s) ==> r == s.time_spec(),
            self.current() is None ==> r == 0,
    {
        match &self.current_stream {
            Some(s) => s.time(),
            None => 0,
        }
    }

    /// Fill one buffer period from the running stream, as the device
    /// driver would.
    pub fn fill_next_buffer(&mut self, buffer: &mut Vec<i32>, frames: usize) -> (r: FillOutcome)
        requires
            old(self).wf(),
            old(self).active(),
            old(buffer)@.len() == 2 * frames,
        ensures
            final(self).wf(),
            final(buffer)@.len() == old(buffer)@.len(),
            old(self).current() matches Some(s) ==> final(self).current() matches Some(t) && {
                &&& s.model().len() >= frames ==> {
                    &&& r == FillOutcome::Continue
                    &&& t.state_spec() == StreamState::Running
                    &&& t.model() == s.model().skip(frames as int)
                    &&& t.time_spec() == time_after(s.time_spec(), frames as nat)
                    &&& forall|i: int|
                        0 <= i < frames ==> final(buffer)@[2 * i] == s.model()[i]
                            && final(buffer)@[2 * i + 1] == s.model()[i]
                }
                &&& s.model().len() < frames ==> {
                    &&& r == FillOutcome::Abort
                    &&& t.state_spec() == StreamState::Aborted
                    &&& t.model().len() == 0
                    &&& t.time_spec() == time_after(s.time_spec(), s.model().len())
                    &&& forall|i: int|
                        0 <= i < s.model().len() ==> final(buffer)@[2 * i] == s.model()[i]
                            && final(buffer)@[2 * i + 1] == s.model()[i]
                    &&& forall|k: int|
                        2 * s.model().len() <= k < final(buffer)@.len() ==> final(buffer)@[k]
                            == old(buffer)@[k]
                }
            },
    {
        match &mut self.current_stream {
            Some(s) => s.fill(buffer, frames),
            None => FillOutcome::Abort,
        }
    }

    /// Drive the held stream to completion and close it: start it, then
    /// fill buffer after buffer in the driver's place until the stream
    /// goes inactive.  A blocking convenience for the control context
    /// only, never part of the real-time path.
    pub fn play_all(&mut self)
        requires
            old(self).wf(),
        ensures
            final(self).wf(),
            final(self).current() is None,
    {
        self.start();
        let mut buffer: Vec<i32> = Vec::new();
        let mut k: usize = 0;
        while k < 2 * FRAMES_PER_BUFFER
            invariant
                0 <= k <= 2 * FRAMES_PER_BUFFER,
                buffer@.len() == k,
            decreases 2 * FRAMES_PER_BUFFER - k,
        {
            buffer.push(0);
            k = k + 1;
        }
        loop
            invariant_except_break
                self.wf(),
                buffer@.len() == 2 * FRAMES_PER_BUFFER,
            ensures
                self.wf(),
                !self.active(),
            decreases (if self.active() {
                1int
            } else {
                0int
            }), (match self.current() {
                Some(s) => s.model().len(),
                None => 0,
            }),
        {
            if !self.is_active() {
                break ;
            }
            self.fill_next_buffer(&mut buffer, FRAMES_PER_BUFFER);
        }
        self.close();
    }
}

} // verus!
