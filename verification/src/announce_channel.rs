//! The sequencer (announce channel): a pull-driven state machine that turns
//! an ordered stream of narration cues into one gapless sample stream.
//!
//! A producer thread sends cues over an ordered single-consumer queue; an
//! encoder pulls samples with [`AnnounceChannel::next`]. The sequencer fetches
//! a cue only when idle or when the current producer is exhausted, and fills
//! as much of each request as the active producer allows before looping. At
//! most one producer — silence countdown, speech session, or effect slice —
//! is ever active.
//!
//! Everything the sequencer does is stated against a mathematical model,
//! [`ChannelModel`], and a step function, [`run`]: one `next(buf)` call
//! behaves exactly as `run` applied to the model, the cues received during
//! the call, and the buffer length.

use vstd::prelude::*;
use crate::sample_library::SampleLibrary;
use crate::tts::{concat_chunks, written, Speaker};
use crate::types::{scale_samp, scale_sample, Samp};

verus! {

/// One narration cue, immutable, consumed exactly once.
pub enum AnnounceEvent {
    /// A fixed short pause.
    Beat,
    /// Play one randomly chosen effect clip, scaled by an amplitude given in
    /// thousandths of full scale (may exceed one thousand).
    Thwack(u32),
    /// Play a synthesized utterance, handed over as the finite chunk
    /// sequence the speech engine produced for its text.
    Message(Vec<Vec<Samp>>),
    /// Exact silence, in samples.
    Delay(u64),
    /// Terminal: no further cues will arrive.
    Finish,
}

/// The playback states. `Idle` only precedes the first cue; `Finished` is
/// terminal.
#[derive(Clone, Copy)]
pub enum ChannelState {
    Waiting,
    Sampling,
    Announcing,
    Idle,
    Finished,
}

/// How long a `Beat` pauses, in samples.
pub const BEAT_LENGTH: u64 = 1024;

/// `n` silent samples.
pub open spec fn silence(n: int) -> Seq<Samp> {
    Seq::new(n as nat, |i: int| 0 as Samp)
}

/// A sample sequence scaled elementwise by an amplitude in thousandths.
pub open spec fn scaled(amp: u32, s: Seq<Samp>) -> Seq<Samp> {
    s.map_values(|x: Samp| scale_samp(amp, x))
}

/// A read-only view into one effect clip: the clip's index in the library
/// and how far playback has advanced.
pub struct SampleSlice {
    pub clip: usize,
    pub offset: usize,
}

/// The sequencer's mathematical state: everything its output depends on,
/// besides the cues still to arrive and the random clip choices.
#[verifier::ext_equal]
pub struct ChannelModel {
    pub state: ChannelState,
    pub wait_left: int,
    pub volume: u32,
    /// Clip index and playback offset of the pending effect slice.
    pub slice: Option<(int, int)>,
    /// The speech samples still to be delivered.
    pub speech: Seq<Samp>,
    /// Whether the speech adapter still reports an active session.
    pub speaking: bool,
    /// The effect library's clips.
    pub clips: Seq<Seq<Samp>>,
}

/// One received cue together with the random index drawn for it (used only
/// by `Thwack`): the two inputs a cue fetch consumes.
pub type TraceEntry = (Option<AnnounceEvent>, int);

/// The state after fetching one cue: every cue maps to a concrete non-idle
/// state; a closed queue (`None`) acts as `Finish`.
pub open spec fn fetch_model(m: ChannelModel, t: TraceEntry) -> ChannelModel {
    match t.0 {
        None => ChannelModel { state: ChannelState::Finished, ..m },
        Some(ev) => match ev {
            AnnounceEvent::Beat => ChannelModel {
                state: ChannelState::Waiting,
                wait_left: BEAT_LENGTH as int,
                ..m
            },
            AnnounceEvent::Delay(d) => ChannelModel {
                state: ChannelState::Waiting,
                wait_left: d as int,
                ..m
            },
            AnnounceEvent::Thwack(amp) => ChannelModel {
                state: ChannelState::Sampling,
                volume: amp,
                slice: Some((t.1, 0int)),
                ..m
            },
            AnnounceEvent::Message(chunks) => ChannelModel {
                state: ChannelState::Announcing,
                speech: concat_chunks(chunks@.map_values(|v: Vec<Samp>| v@)),
                speaking: true,
                ..m
            },
            AnnounceEvent::Finish => ChannelModel { state: ChannelState::Finished, ..m },
        },
    }
}

/// Whether one dispatch on `m`, with `n` samples of space, ends by fetching
/// the next cue (because the active producer is exhausted).
pub open spec fn dispatch_fetches(m: ChannelModel, n: int) -> bool {
    match m.state {
        ChannelState::Waiting => m.wait_left <= n,
        ChannelState::Announcing => !m.speaking,
        ChannelState::Sampling => m.slice is None,
        ChannelState::Idle => true,
        ChannelState::Finished => false,
    }
}

/// How many samples the active producer of `m` still holds.
pub open spec fn avail(m: ChannelModel) -> int {
    match m.state {
        ChannelState::Waiting => m.wait_left,
        ChannelState::Announcing => if m.speaking {
            m.speech.len() as int
        } else {
            0
        },
        ChannelState::Sampling => match m.slice {
            Some(sl) => m.clips[sl.0].len() - sl.1,
            None => 0,
        },
        ChannelState::Idle => 0,
        ChannelState::Finished => 0,
    }
}

/// `x` clamped into `[0, n]`.
pub open spec fn clamp_len(x: int, n: int) -> int {
    if x <= 0 {
        0
    } else if x < n {
        x
    } else {
        n
    }
}

/// How many samples one dispatch on `m` emits into `n` samples of space:
/// what the active producer holds, cut off at the space.
pub open spec fn dispatch_len(m: ChannelModel, n: int) -> int {
    clamp_len(avail(m), n)
}

/// The samples one dispatch on `m` emits into `n` samples of space: a prefix
/// of what the active producer has left, never more than `n`.
pub open spec fn dispatch_out(m: ChannelModel, n: int) -> Seq<Samp> {
    let k = dispatch_len(m, n);
    match m.state {
        ChannelState::Waiting => silence(k),
        ChannelState::Announcing => m.speech.take(k),
        ChannelState::Sampling => match m.slice {
            Some(sl) => {
                let clip = m.clips[sl.0];
                scaled(m.volume, clip.subrange(sl.1, sl.1 + k))
            },
            None => Seq::empty(),
        },
        ChannelState::Idle => Seq::empty(),
        ChannelState::Finished => Seq::empty(),
    }
}

/// The model after one dispatch on `m` with `n` samples of space; `t` is the
/// cue fetched, meaningful only when the dispatch fetches one.
pub open spec fn dispatch_post(m: ChannelModel, n: int, t: TraceEntry) -> ChannelModel {
    if dispatch_fetches(m, n) {
        fetch_model(ChannelModel { wait_left: 0, ..m }, t)
    } else {
        let k = dispatch_len(m, n);
        match m.state {
            ChannelState::Waiting => ChannelModel { wait_left: m.wait_left - n, ..m },
            ChannelState::Announcing => ChannelModel {
                speech: m.speech.skip(k),
                speaking: k == n,
                ..m
            },
            ChannelState::Sampling => match m.slice {
                Some(sl) => {
                    let rem = m.clips[sl.0].len() - sl.1;
                    ChannelModel {
                        slice: if rem <= k {
                            None
                        } else {
                            Some((sl.0, sl.1 + k))
                        },
                        ..m
                    }
                },
                None => m,
            },
            ChannelState::Idle => m,
            ChannelState::Finished => m,
        }
    }
}

/// A consistent model: the library non-empty, a pending slice in bounds and
/// only in `Sampling`, and at most one producer active.
pub open spec fn model_wf(m: ChannelModel) -> bool {
    &&& m.wait_left >= 0
    &&& m.clips.len() > 0
    &&& match m.slice {
        Some(sl) => (m.state is Sampling) && 0 <= sl.0 < m.clips.len() && 0 <= sl.1
            <= m.clips[sl.0].len(),
        None => true,
    }
    &&& !(m.state is Waiting) ==> m.wait_left == 0
    &&& !(m.state is Announcing) ==> !m.speaking
    &&& !(m.state is Sampling) ==> m.slice is None
    &&& !m.speaking ==> m.speech.len() == 0
}

/// A trace is consistent with a library of `nclips` clips when every
/// `Thwack` entry's drawn index lies within it — which the sequencer's
/// random selection guarantees.
pub open spec fn wf_trace(tr: Seq<TraceEntry>, nclips: int) -> bool {
    forall|i: int|
        0 <= i < tr.len() ==> (((#[trigger] tr[i]).0 matches Some(AnnounceEvent::Thwack(_)))
            ==> 0 <= tr[i].1 < nclips)
}

/// One dispatch keeps the model consistent and never touches the library.
pub proof fn lemma_dispatch_post_wf(m: ChannelModel, n: int, t: TraceEntry)
    requires
        model_wf(m),
        n > 0,
        !(m.state is Finished),
        dispatch_fetches(m, n) ==> ((t.0 matches Some(AnnounceEvent::Thwack(_))) ==> 0 <= t.1
            < m.clips.len()),
    ensures
        model_wf(dispatch_post(m, n, t)),
        dispatch_post(m, n, t).clips == m.clips,
{
}

/// Termination rank for `run`: a dispatch that emits nothing and consumes no
/// cue strictly lowers it.
pub open spec fn phase(m: ChannelModel) -> int {
    match m.state {
        ChannelState::Finished => 0,
        ChannelState::Idle => 1,
        ChannelState::Waiting => 1,
        ChannelState::Announcing => if m.speaking {
            2
        } else {
            1
        },
        ChannelState::Sampling => if m.slice is Some {
            2
        } else {
            1
        },
    }
}

/// The next trace entry; an exhausted trace acts as a closed queue.
pub open spec fn trace_head(tr: Seq<TraceEntry>) -> TraceEntry {
    if tr.len() > 0 {
        tr.first()
    } else {
        (None, 0int)
    }
}

/// The trace after consuming one entry.
pub open spec fn trace_tail(tr: Seq<TraceEntry>) -> Seq<TraceEntry> {
    if tr.len() > 0 {
        tr.drop_first()
    } else {
        tr
    }
}

/// How many entries one fetch consumes from `tr`.
pub open spec fn trace_used(tr: Seq<TraceEntry>) -> int {
    if tr.len() > 0 {
        1int
    } else {
        0int
    }
}

/// What one whole `next` call produces and leaves behind.
#[verifier::ext_equal]
pub struct RunResult {
    /// The samples emitted, in order.
    pub out: Seq<Samp>,
    /// The model after the call.
    pub model: ChannelModel,
    /// How many trace entries (cue fetches) the call consumed.
    pub used: int,
}

/// The sequencer's step function: dispatch on the state until `n` samples
/// are emitted or the state is `Finished`, fetching cues from `tr` whenever
/// the active producer is exhausted. `fuel` bounds how many cue fetches one
/// call may perform; a call stops early only once it is spent. One
/// `next(buf)` call behaves exactly as `run` on the prior model, the cues
/// received during the call, `buf.len()`, and a fetch budget of
/// [`FETCH_BUDGET`] — large enough that no realizable cue stream ever
/// exhausts it.
pub open spec fn run(m: ChannelModel, tr: Seq<TraceEntry>, n: int, fuel: int) -> RunResult
    decreases fuel, n, phase(m),
{
    if n <= 0 || m.state is Finished {
        RunResult { out: Seq::empty(), model: m, used: 0 }
    } else if dispatch_fetches(m, n) {
        if fuel <= 0 {
            // The budget is spent: emit what the countdown still owes and
            // stop in front of the fetch.
            RunResult {
                out: dispatch_out(m, n),
                model: ChannelModel { wait_left: 0, ..m },
                used: 0,
            }
        } else {
            let k = dispatch_len(m, n);
            let out = dispatch_out(m, n);
            let m1 = dispatch_post(m, n, trace_head(tr));
            let rec = run(m1, trace_tail(tr), n - k, fuel - 1);
            RunResult { out: out + rec.out, model: rec.model, used: trace_used(tr) + rec.used }
        }
    } else {
        let k = dispatch_len(m, n);
        let out = dispatch_out(m, n);
        let m1 = dispatch_post(m, n, (None, 0int));
        let rec = run(m1, tr, n - k, fuel);
        RunResult { out: out + rec.out, model: rec.model, used: rec.used }
    }
}

/// How many cue fetches one `next` call may perform before giving up: large
/// enough that no real cue stream reaches it.
pub const FETCH_BUDGET: u64 = u64::MAX;

/// What every dispatch function promises: the fetched-cue witness is present
/// exactly when the dispatch fetches, a drawn clip index is in range, and the
/// new model is `dispatch_post`.
pub open spec fn dispatch_ensures(
    m: ChannelModel,
    n: int,
    fetched: Option<TraceEntry>,
    m1: ChannelModel,
) -> bool {
    if dispatch_fetches(m, n) {
        match fetched {
            Some(t) => m1 == dispatch_post(m, n, t) && ((t.0 matches Some(
                AnnounceEvent::Thwack(_),
            )) ==> 0 <= t.1 < m.clips.len()),
            None => false,
        }
    } else {
        fetched is None && m1 == dispatch_post(m, n, (None, 0int))
    }
}

/// On a consistent model a dispatch emits exactly `dispatch_len` samples,
/// never more than the space, and leaves a consistent model behind.
pub proof fn lemma_dispatch_len(m: ChannelModel, n: int)
    requires
        model_wf(m),
        n >= 0,
    ensures
        dispatch_out(m, n).len() == dispatch_len(m, n),
        0 <= dispatch_len(m, n) <= n,
{
}

/// `run` on a trace that begins with one dispatch's fetched cue unfolds into
/// that dispatch followed by `run` on the rest.
pub proof fn lemma_run_unfold(
    m: ChannelModel,
    n: int,
    fetched: Option<TraceEntry>,
    m1: ChannelModel,
    tr2: Seq<TraceEntry>,
    fuel: int,
)
    requires
        model_wf(m),
        n > 0,
        !(m.state is Finished),
        dispatch_ensures(m, n, fetched, m1),
        dispatch_fetches(m, n) ==> fuel > 0,
    ensures
        ({
            let t_d = match fetched {
                Some(t) => seq![t],
                None => Seq::<TraceEntry>::empty(),
            };
            let fuel1 = if fetched is Some {
                fuel - 1
            } else {
                fuel
            };
            let out = dispatch_out(m, n);
            let rec = run(m1, tr2, n - out.len(), fuel1);
            run(m, t_d + tr2, n, fuel) == (RunResult {
                out: out + rec.out,
                model: rec.model,
                used: t_d.len() + rec.used,
            })
        }),
{
    lemma_dispatch_len(m, n);
    let k = dispatch_len(m, n);
    let out = dispatch_out(m, n);
    match fetched {
        Some(t) => {
            let t_d = seq![t];
            let tr = t_d + tr2;
            assert(tr.len() > 0);
            assert(trace_head(tr) == t);
            assert(trace_tail(tr) =~= tr2);
            let rec = run(m1, tr2, n - k, fuel - 1);
            assert(run(m, tr, n, fuel) =~= (RunResult {
                out: out + rec.out,
                model: rec.model,
                used: 1 + rec.used,
            }));
        },
        None => {
            let t_d = Seq::<TraceEntry>::empty();
            assert(t_d + tr2 =~= tr2);
            let rec = run(m1, tr2, n - k, fuel);
            assert(run(m, tr2, n, fuel) =~= (RunResult {
                out: out + rec.out,
                model: rec.model,
                used: rec.used,
            }));
        },
    }
}

/// What one `next` call promises, relative to the cues it received: `run` on
/// the prior model, the received trace, the buffer length and the standard
/// fetch budget yields exactly the samples written, the trace consumed, and
/// the new model.
pub open spec fn next_matches(
    m0: ChannelModel,
    tr: Seq<TraceEntry>,
    pre: Seq<Samp>,
    post: Seq<Samp>,
    r: int,
    m1: ChannelModel,
) -> bool {
    let res = run(m0, tr, pre.len() as int, FETCH_BUDGET as int);
    &&& res.used == tr.len()
    &&& r == res.out.len()
    &&& written(pre, post, 0, res.out)
    &&& m1 == res.model
}

/// The pull-driven sequencer. It owns the cue queue's receiving end, the
/// speech adapter, the effect library, and a seedable random generator for
/// picking effect clips.
pub struct AnnounceChannel {
    state: ChannelState,
    wait_left: u64,
    rx: std::sync::mpsc::Receiver<AnnounceEvent>,
    speaker: Speaker,
    thwacks: SampleLibrary,
    volume: u32,
    current_sample: Option<SampleSlice>,
    rng: fastrand::Rng,
}

impl AnnounceChannel {
    /// The sequencer's mathematical state.
    pub closed spec fn model(self) -> ChannelModel {
        ChannelModel {
            state: self.state,
            wait_left: self.wait_left as int,
            volume: self.volume,
            slice: match self.current_sample {
                Some(sl) => Some((sl.clip as int, sl.offset as int)),
                None => None,
            },
            speech: self.speaker.remaining(),
            speaking: self.speaker.is_speaking_spec(),
            clips: self.thwacks@,
        }
    }

    /// Internal consistency: the library is non-empty (required for random
    /// clip selection), a pending slice is in bounds and only exists in the
    /// `Sampling` state, and at most one producer is active at a time.
    pub closed spec fn wf(self) -> bool {
        &&& self.speaker.wf()
        &&& self.thwacks@.len() > 0
        &&& match self.current_sample {
            Some(sl) => (self.state is Sampling) && sl.clip < self.thwacks@.len()
                && sl.offset <= self.thwacks@[sl.clip as int].len(),
            None => true,
        }
        &&& !(self.state is Waiting) ==> self.wait_left == 0
        &&& !(self.state is Announcing) ==> !self.speaker.is_speaking_spec()
        &&& !(self.state is Sampling) ==> self.current_sample is None
    }

    /// A fresh sequencer in the `Idle` state, before the first cue. The
    /// library must hold at least one clip, so that random selection over
    /// `[0, len)` is always possible. The seed makes clip choices
    /// reproducible.
    pub fn new(
        rx: std::sync::mpsc::Receiver<AnnounceEvent>,
        thwacks: SampleLibrary,
        seed: u64,
    ) -> (ch: AnnounceChannel)
        requires
            thwacks@.len() > 0,
        ensures
            ch.wf(),
            ch.model() == (ChannelModel {
                state: ChannelState::Idle,
                wait_left: 0,
                volume: 1000u32,
                slice: None,
                speech: Seq::<Samp>::empty(),
                speaking: false,
                clips: thwacks@,
            }),
    {
        AnnounceChannel {
            state: ChannelState::Idle,
            wait_left: 0,
            volume: 1000,
            rx,
            speaker: Speaker::new(),
            thwacks,
            current_sample: None,
            rng: rng_with_seed(seed),
        }
    }

    /// A consistent sequencer has a consistent model.
    pub proof fn lemma_wf_model(self)
        requires
            self.wf(),
        ensures
            model_wf(self.model()),
    {
        self.speaker.lemma_silent_is_drained();
    }

    /// Fill a prefix of `buf` with the next samples of the stream: keep
    /// dispatching on the current state — silence countdown, speech, effect
    /// slice, or a blocking cue fetch — until the buffer is full or the
    /// state is `Finished`. Returns how many samples were written; the rest
    /// of the buffer is untouched. A short fill signals the end of the
    /// stream, and once `Finished` has been reached every later call returns
    /// 0 without touching the queue.
    pub fn next(&mut self, buf: &mut Vec<Samp>) -> (r: usize)
        requires
            old(self).wf(),
        ensures
            final(self).wf(),
            r <= old(buf)@.len(),
            final(buf)@.len() == old(buf)@.len(),
            old(self).model().state is Finished ==> r == 0 && final(self).model() == old(
                self,
            ).model() && final(buf)@ == old(buf)@,
            exists|tr: Seq<TraceEntry>|
                #[trigger] next_matches(
                    old(self).model(),
                    tr,
                    old(buf)@,
                    final(buf)@,
                    r as int,
                    final(self).model(),
                ) && wf_trace(tr, old(self).model().clips.len() as int),
    {
        let ghost m0 = self.model();
        let ghost buf0 = buf@;
        let target: usize = buf.len();
        let mut filled: usize = 0;
        let mut fuel: u64 = FETCH_BUDGET;
        let mut done = false;
        let mut starved = false;
        let ghost mut tr_acc: Seq<TraceEntry> = Seq::empty();
        let ghost mut emitted: Seq<Samp> = Seq::empty();
        proof {
            crate::tts::lemma_written_empty(buf0, 0);
            assert forall|tr2: Seq<TraceEntry>| #[trigger]
                run(m0, tr_acc + tr2, target as int, FETCH_BUDGET as int) == (RunResult {
                    out: emitted + run(m0, tr2, target - filled, fuel as int).out,
                    model: run(m0, tr2, target - filled, fuel as int).model,
                    used: tr_acc.len() + run(m0, tr2, target - filled, fuel as int).used,
                }) by {
                assert(tr_acc + tr2 =~= tr2);
                let rec = run(m0, tr2, target as int, FETCH_BUDGET as int);
                assert(emitted + rec.out =~= rec.out);
                assert(run(m0, tr_acc + tr2, target as int, FETCH_BUDGET as int) =~= (RunResult {
                    out: emitted + rec.out,
                    model: rec.model,
                    used: tr_acc.len() + rec.used,
                }));
            }
        }
        while !done && !starved && filled < target
            invariant
                self.wf(),
                filled <= target,
                buf@.len() == target,
                buf0.len() == target,
                emitted.len() == filled,
                self.model().clips == m0.clips,
                wf_trace(tr_acc, m0.clips.len() as int),
                done ==> (self.model().state is Finished),
                starved ==> fuel == 0 && dispatch_fetches(self.model(), target - filled) && avail(
                    self.model(),
                ) <= 0 && self.model().wait_left == 0,
                written(buf0, buf@, 0, emitted),
                m0.state is Finished ==> self.model() == m0 && filled == 0 && buf@ == buf0
                    && tr_acc == Seq::<TraceEntry>::empty(),
                forall|tr2: Seq<TraceEntry>| #[trigger]
                    run(m0, tr_acc + tr2, target as int, FETCH_BUDGET as int) == (RunResult {
                        out: emitted + run(self.model(), tr2, target - filled, fuel as int).out,
                        model: run(self.model(), tr2, target - filled, fuel as int).model,
                        used: tr_acc.len() + run(self.model(), tr2, target - filled, fuel as int).used,
                    }),
            decreases
                    fuel,
                    target - filled,
                    phase(self.model()),
                    (if done || starved {
                        0int
                    } else {
                        1int
                    }),
        {
            let ghost m_cur = self.model();
            let ghost buf_pre = buf@;
            let ghost n_left = target - filled as int;
            let ghost fuel0 = fuel as int;
            proof {
                self.lemma_wf_model();
            }
            match self.state {
                ChannelState::Finished => {
                    done = true;
                },
                _ => {
                    let space_now: usize = target - filled;
                    let will_fetch = self.fetch_pending(space_now);
                    if will_fetch && fuel == 0 {
                        // Out of fetch budget: flush what the countdown still
                        // owes, then stop in front of the fetch.
                        let mut w: usize = 0;
                        match self.state {
                            ChannelState::Waiting => {
                                w = self.wait_left as usize;
                                fill_silence(buf, filled, w);
                                self.wait_left = 0;
                            },
                            _ => {},
                        }
                        proof {
                            let out_d = dispatch_out(m_cur, n_left);
                            assert(out_d =~= silence(w as int));
                            crate::tts::lemma_written_compose(
                                buf0,
                                buf_pre,
                                buf@,
                                0,
                                emitted,
                                out_d,
                            );
                            let m_next = self.model();
                            assert(m_next =~= (ChannelModel { wait_left: 0, ..m_cur }));
                            assert forall|tr2: Seq<TraceEntry>| #[trigger]
                                run(m0, tr_acc + tr2, target as int, FETCH_BUDGET as int)
                                    == (RunResult {
                                    out: (emitted + out_d) + run(
                                        m_next,
                                        tr2,
                                        target - (filled + w),
                                        fuel as int,
                                    ).out,
                                    model: run(m_next, tr2, target - (filled + w), fuel as int).model,
                                    used: tr_acc.len() + run(
                                        m_next,
                                        tr2,
                                        target - (filled + w),
                                        fuel as int,
                                    ).used,
                                }) by {
                                let rec_old = run(m_cur, tr2, n_left, fuel as int);
                                assert(rec_old == (RunResult {
                                    out: out_d,
                                    model: m_next,
                                    used: 0int,
                                }));
                                let rec = run(m_next, tr2, target - (filled + w), fuel as int);
                                assert(rec == (RunResult {
                                    out: Seq::<Samp>::empty(),
                                    model: m_next,
                                    used: 0int,
                                }));
                                assert(emitted + out_d =~= (emitted + out_d) + rec.out);
                            }
                            emitted = emitted + out_d;
                        }
                        filled = filled + w;
                        starved = true;
                    } else {
                        let res = match self.state {
                            ChannelState::Waiting => self.wait(buf, filled),
                            ChannelState::Announcing => self.announce(buf, filled),
                            ChannelState::Sampling => self.sample(buf, filled),
                            _ => self.idle(buf, filled),
                        };
                        let k = res.0;
                        if will_fetch {
                            fuel = fuel - 1;
                        }
                        proof {
                            let fetched = res.1@;
                            let t_d: Seq<TraceEntry> = match fetched {
                                Some(t) => seq![t],
                                None => Seq::empty(),
                            };
                            let out_d = dispatch_out(m_cur, n_left);
                            lemma_dispatch_len(m_cur, n_left);
                            crate::tts::lemma_written_compose(
                                buf0,
                                buf_pre,
                                buf@,
                                0,
                                emitted,
                                out_d,
                            );
                            let m_next = self.model();
                            lemma_dispatch_post_wf(
                                m_cur,
                                n_left,
                                match fetched {
                                    Some(t) => t,
                                    None => (None, 0int),
                                },
                            );
                            assert(wf_trace(tr_acc + t_d, m0.clips.len() as int)) by {
                                assert(forall|i: int|
                                    0 <= i < tr_acc.len() ==> #[trigger] (tr_acc + t_d)[i]
                                        == tr_acc[i]);
                                assert(forall|i: int|
                                    tr_acc.len() <= i < (tr_acc + t_d).len() ==> #[trigger] (tr_acc
                                        + t_d)[i] == t_d[i - tr_acc.len()]);
                            }
                            assert forall|tr2: Seq<TraceEntry>| #[trigger]
                                run(m0, (tr_acc + t_d) + tr2, target as int, FETCH_BUDGET as int)
                                    == (RunResult {
                                    out: (emitted + out_d) + run(
                                        m_next,
                                        tr2,
                                        target - (filled + k),
                                        fuel as int,
                                    ).out,
                                    model: run(m_next, tr2, target - (filled + k), fuel as int).model,
                                    used: (tr_acc + t_d).len() + run(
                                        m_next,
                                        tr2,
                                        target - (filled + k),
                                        fuel as int,
                                    ).used,
                                }) by {
                                lemma_run_unfold(m_cur, n_left, fetched, m_next, tr2, fuel0);
                                assert((tr_acc + t_d) + tr2 =~= tr_acc + (t_d + tr2));
                                let rec = run(m_next, tr2, target - (filled + k), fuel as int);
                                assert(run(m_cur, t_d + tr2, n_left, fuel0) == (RunResult {
                                    out: out_d + rec.out,
                                    model: rec.model,
                                    used: t_d.len() + rec.used,
                                }));
                                assert(run(m0, tr_acc + (t_d + tr2), target as int, FETCH_BUDGET as int)
                                    == (RunResult {
                                    out: emitted + (out_d + rec.out),
                                    model: rec.model,
                                    used: tr_acc.len() + (t_d.len() + rec.used),
                                }));
                                assert(emitted + (out_d + rec.out) =~= (emitted + out_d) + rec.out);
                                assert(run(m0, (tr_acc + t_d) + tr2, target as int, FETCH_BUDGET as int)
                                    =~= (RunResult {
                                    out: (emitted + out_d) + rec.out,
                                    model: rec.model,
                                    used: (tr_acc + t_d).len() + rec.used,
                                }));
                            }
                            tr_acc = tr_acc + t_d;
                            emitted = emitted + out_d;
                        }
                        filled = filled + k;
                    }
                },
            }
        }
        proof {
            let rec = run(self.model(), Seq::<TraceEntry>::empty(), target - filled as int, fuel as int);
            if starved {
                assert(dispatch_out(self.model(), target - filled) =~= Seq::<Samp>::empty());
                assert((ChannelModel { wait_left: 0, ..self.model() }) =~= self.model());
            }
            assert(rec =~= (RunResult { out: Seq::<Samp>::empty(), model: self.model(), used: 0int }));
            assert(run(m0, tr_acc + Seq::<TraceEntry>::empty(), target as int, FETCH_BUDGET as int)
                == (RunResult { out: emitted + rec.out, model: rec.model, used: tr_acc.len() + rec.used }));
            assert(tr_acc + Seq::<TraceEntry>::empty() =~= tr_acc);
            assert(emitted + rec.out =~= emitted);
            assert(next_matches(m0, tr_acc, buf0, buf@, filled as int, self.model()));
        }
        filled
    }

    /// Whether the next dispatch, given `n` samples of space, will fetch a
    /// cue from the queue.
    fn fetch_pending(&self, n: usize) -> (b: bool)
        requires
            self.wf(),
        ensures
            b == dispatch_fetches(self.model(), n as int),
    {
        match self.state {
            ChannelState::Waiting => self.wait_left <= n as u64,
            ChannelState::Announcing => !self.speaker.is_speaking(),
            ChannelState::Sampling => self.current_sample.is_none(),
            ChannelState::Idle => true,
            ChannelState::Finished => false,
        }
    }

    /// Blocking cue fetch: map the received cue (or the closed queue) onto
    /// the next state. Callable only when no producer is mid-stream. Returns
    /// the received cue and drawn index as a ghost witness.
    fn get_next_state(&mut self) -> (wit: Ghost<TraceEntry>)
        requires
            old(self).wf(),
            old(self).model().wait_left == 0,
            !old(self).model().speaking,
            old(self).model().slice is None,
        ensures
            final(self).wf(),
            final(self).model() == fetch_model(old(self).model(), wit@),
            (wit@.0 matches Some(AnnounceEvent::Thwack(_))) ==> 0 <= wit@.1
                < old(self).model().clips.len(),
    {
        let ev = recv_event(&self.rx);
        let ghost gev = ev;
        match ev {
            None => {
                self.state = ChannelState::Finished;
                proof {
                    assert(self.model() =~= fetch_model(old(self).model(), (gev, 0int)));
                }
                Ghost((gev, 0int))
            },
            Some(AnnounceEvent::Beat) => {
                self.wait_left = BEAT_LENGTH;
                self.state = ChannelState::Waiting;
                proof {
                    assert(self.model() =~= fetch_model(old(self).model(), (gev, 0int)));
                }
                Ghost((gev, 0int))
            },
            Some(AnnounceEvent::Thwack(amp)) => {
                let n = self.thwacks.len();
                let idx = random_index(&mut self.rng, n);
                self.current_sample = Some(SampleSlice { clip: idx, offset: 0 });
                self.volume = amp;
                self.state = ChannelState::Sampling;
                proof {
                    assert(self.model() =~= fetch_model(old(self).model(), (gev, idx as int)));
                }
                Ghost((gev, idx as int))
            },
            Some(AnnounceEvent::Delay(d)) => {
                self.wait_left = d;
                self.state = ChannelState::Waiting;
                proof {
                    assert(self.model() =~= fetch_model(old(self).model(), (gev, 0int)));
                }
                Ghost((gev, 0int))
            },
            Some(AnnounceEvent::Message(chunks)) => {
                self.speaker.say(chunks);
                self.state = ChannelState::Announcing;
                proof {
                    assert(self.model() =~= fetch_model(old(self).model(), (gev, 0int)));
                }
                Ghost((gev, 0int))
            },
            Some(AnnounceEvent::Finish) => {
                self.state = ChannelState::Finished;
                proof {
                    assert(self.model() =~= fetch_model(old(self).model(), (gev, 0int)));
                }
                Ghost((gev, 0int))
            },
        }
    }

    /// One dispatch in the `Waiting` state: fill with silence; if that ends
    /// the countdown, fetch the next cue.
    fn wait(&mut self, buf: &mut Vec<Samp>, from: usize) -> (res: (usize, Ghost<
        Option<TraceEntry>,
    >))
        requires
            old(self).wf(),
            old(self).model().state is Waiting,
            from <= old(buf)@.len(),
        ensures
            final(self).wf(),
            final(buf)@.len() == old(buf)@.len(),
            res.0 == dispatch_out(old(self).model(), old(buf)@.len() - from).len(),
            written(
                old(buf)@,
                final(buf)@,
                from as int,
                dispatch_out(old(self).model(), old(buf)@.len() - from),
            ),
            dispatch_ensures(
                old(self).model(),
                old(buf)@.len() - from,
                res.1@,
                final(self).model(),
            ),
    {
        let ghost m0 = self.model();
        let ghost n = old(buf)@.len() - from;
        let space = buf.len() - from;
        if self.wait_left > space as u64 {
            fill_silence(buf, from, space);
            self.wait_left = self.wait_left - space as u64;
            proof {
                assert(dispatch_out(m0, n) =~= silence(n));
                assert(self.model() =~= dispatch_post(m0, n, (None, 0int)));
            }
            (space, Ghost(None))
        } else {
            let w = self.wait_left as usize;
            fill_silence(buf, from, w);
            self.wait_left = 0;
            let ghost mid = self.model();
            proof {
                assert(mid =~= (ChannelModel { wait_left: 0, ..m0 }));
                assert(dispatch_out(m0, n) =~= silence(w as int));
            }
            let wit = self.get_next_state();
            proof {
                assert(self.model() =~= dispatch_post(m0, n, wit@));
            }
            (w, Ghost(Some(wit@)))
        }
    }

    /// One dispatch in the `Announcing` state: delegate to the speech
    /// adapter while it is speaking; once it is done, fetch the next cue.
    fn announce(&mut self, buf: &mut Vec<Samp>, from: usize) -> (res: (usize, Ghost<
        Option<TraceEntry>,
    >))
        requires
            old(self).wf(),
            old(self).model().state is Announcing,
            from <= old(buf)@.len(),
        ensures
            final(self).wf(),
            final(buf)@.len() == old(buf)@.len(),
            res.0 == dispatch_out(old(self).model(), old(buf)@.len() - from).len(),
            written(
                old(buf)@,
                final(buf)@,
                from as int,
                dispatch_out(old(self).model(), old(buf)@.len() - from),
            ),
            dispatch_ensures(
                old(self).model(),
                old(buf)@.len() - from,
                res.1@,
                final(self).model(),
            ),
    {
        let ghost m0 = self.model();
        let ghost n = old(buf)@.len() - from;
        if self.speaker.is_speaking() {
            let r = self.speaker.next(buf, from);
            proof {
                let k = vstd::math::min(n, m0.speech.len() as int);
                assert(r == k);
                assert(dispatch_out(m0, n) =~= m0.speech.take(k));
                if r < n {
                    assert(!self.speaker.is_speaking_spec());
                } else {
                    assert(self.speaker.is_speaking_spec() == m0.speaking);
                }
                assert(self.model() =~= dispatch_post(m0, n, (None, 0int)));
            }
            (r, Ghost(None))
        } else {
            let wit = self.get_next_state();
            proof {
                assert(dispatch_out(m0, n) =~= Seq::<Samp>::empty());
                crate::tts::lemma_written_empty(old(buf)@, from as int);
                assert(self.model() =~= dispatch_post(m0, n, wit@));
            }
            (0, Ghost(Some(wit@)))
        }
    }

    /// One dispatch in the `Sampling` state: copy from the pending effect
    /// slice, scaling each sample by the cue's amplitude; with no pending
    /// slice left, fetch the next cue.
    fn sample(&mut self, buf: &mut Vec<Samp>, from: usize) -> (res: (usize, Ghost<
        Option<TraceEntry>,
    >))
        requires
            old(self).wf(),
            old(self).model().state is Sampling,
            from <= old(buf)@.len(),
        ensures
            final(self).wf(),
            final(buf)@.len() == old(buf)@.len(),
            res.0 == dispatch_out(old(self).model(), old(buf)@.len() - from).len(),
            written(
                old(buf)@,
                final(buf)@,
                from as int,
                dispatch_out(old(self).model(), old(buf)@.len() - from),
            ),
            dispatch_ensures(
                old(self).model(),
                old(buf)@.len() - from,
                res.1@,
                final(self).model(),
            ),
    {
        let ghost m0 = self.model();
        let ghost n = old(buf)@.len() - from;
        match &self.current_sample {
            None => {
                let wit = self.get_next_state();
                proof {
                    assert(dispatch_out(m0, n) =~= Seq::<Samp>::empty());
                    crate::tts::lemma_written_empty(old(buf)@, from as int);
                    assert(self.model() =~= dispatch_post(m0, n, wit@));
                }
                (0, Ghost(Some(wit@)))
            },
            Some(sl) => {
                let clip_idx = sl.clip;
                let offset = sl.offset;
                let space = buf.len() - from;
                let clip_len = self.thwacks.get(clip_idx).len();
                let rem = clip_len - offset;
                let k = if space < rem {
                    space
                } else {
                    rem
                };
                let ghost clip = m0.clips[clip_idx as int];
                let blen = buf.len();
                let mut i: usize = 0;
                while i < k
                    invariant
                        i <= k,
                        from + k <= blen,
                        buf@.len() == blen,
                        old(buf)@.len() == blen,
                        clip_idx < self.thwacks@.len(),
                        offset + k <= clip_len,
                        clip.len() == clip_len,
                        clip == self.thwacks@[clip_idx as int],
                        self == old(self),
                        forall|j: int|
                            0 <= j < buf@.len() && !(from <= j < from + i) ==> buf@[j]
                                == #[trigger] old(buf)@[j],
                        forall|j: int|
                            0 <= j < i ==> buf@[from + j] == #[trigger] scale_samp(
                                self.volume,
                                clip[offset + j],
                            ),
                    decreases k - i,
                {
                    let s = self.thwacks.get(clip_idx)[offset + i];
                    let v = scale_sample(self.volume, s);
                    buf[from + i] = v;
                    i = i + 1;
                }
                if k == rem {
                    self.current_sample = None;
                } else {
                    self.current_sample = Some(SampleSlice { clip: clip_idx, offset: offset + k });
                }
                proof {
                    assert(dispatch_out(m0, n) =~= scaled(
                        m0.volume,
                        clip.subrange(offset as int, offset + k),
                    ));
                    assert(forall|j: int|
                        0 <= j < k ==> #[trigger] dispatch_out(m0, n)[j] == scale_samp(
                            m0.volume,
                            clip[offset + j],
                        ));
                    assert(written(old(buf)@, buf@, from as int, dispatch_out(m0, n)));
                    assert(self.model() =~= dispatch_post(m0, n, (None, 0int)));
                }
                (k, Ghost(None))
            },
        }
    }

    /// One dispatch in the `Idle` state: fetch the first cue.
    fn idle(&mut self, buf: &mut Vec<Samp>, from: usize) -> (res: (usize, Ghost<
        Option<TraceEntry>,
    >))
        requires
            old(self).wf(),
            old(self).model().state is Idle,
            from <= old(buf)@.len(),
        ensures
            final(self).wf(),
            final(buf)@.len() == old(buf)@.len(),
            res.0 == dispatch_out(old(self).model(), old(buf)@.len() - from).len(),
            written(
                old(buf)@,
                final(buf)@,
                from as int,
                dispatch_out(old(self).model(), old(buf)@.len() - from),
            ),
            dispatch_ensures(
                old(self).model(),
                old(buf)@.len() - from,
                res.1@,
                final(self).model(),
            ),
    {
        let ghost m0 = self.model();
        let ghost n = old(buf)@.len() - from;
        let wit = self.get_next_state();
        proof {
            assert(dispatch_out(m0, n) =~= Seq::<Samp>::empty());
            crate::tts::lemma_written_empty(old(buf)@, from as int);
            assert(self.model() =~= dispatch_post(m0, n, wit@));
        }
        (0, Ghost(Some(wit@)))
    }
}

/// `run` consumes no more trace entries than the trace holds.
pub proof fn lemma_run_used(m: ChannelModel, tr: Seq<TraceEntry>, n: int, fuel: int)
    ensures
        0 <= run(m, tr, n, fuel).used <= tr.len(),
    decreases fuel, n, phase(m),
{
    if n <= 0 || m.state is Finished {
    } else if dispatch_fetches(m, n) {
        if fuel > 0 {
            let k = dispatch_len(m, n);
            lemma_run_used(dispatch_post(m, n, trace_head(tr)), trace_tail(tr), n - k, fuel - 1);
        }
    } else {
        let k = dispatch_len(m, n);
        lemma_run_used(dispatch_post(m, n, (None, 0int)), tr, n - k, fuel);
    }
}

/// The split goal: `run` over `n1 + n2` equals the first pull of `n1`
/// followed, on its outcome, by a pull of `n2`.
pub open spec fn split_goal(m: ChannelModel, tr: Seq<TraceEntry>, n1: int, n2: int, fuel: int) -> bool {
    let whole = run(m, tr, n1 + n2, fuel);
    let p1 = run(m, tr, n1, fuel);
    let p2 = run(p1.model, tr.skip(p1.used), n2, fuel - p1.used);
    whole == (RunResult { out: p1.out + p2.out, model: p2.model, used: p1.used + p2.used })
}

/// Split case: the fetch budget is spent in front of the pending fetch.
#[verifier::rlimit(60)]
proof fn lemma_run_split_starved(m: ChannelModel, tr: Seq<TraceEntry>, n1: int, n2: int, fuel: int)
    requires
        model_wf(m),
        n1 > 0,
        n2 > 0,
        !(m.state is Finished),
        dispatch_fetches(m, n1 + n2),
        fuel <= 0,
    ensures
        split_goal(m, tr, n1, n2, fuel),
{
    let whole = run(m, tr, n1 + n2, fuel);
    let p1 = run(m, tr, n1, fuel);
    lemma_run_used(m, tr, n1, fuel);
    let p2 = run(p1.model, tr.skip(p1.used), n2, fuel - p1.used);
    let goal = RunResult { out: p1.out + p2.out, model: p2.model, used: p1.used + p2.used };
    let k = dispatch_len(m, n1 + n2);
    let out = dispatch_out(m, n1 + n2);
    let mc = ChannelModel { wait_left: 0, ..m };
    assert(whole == RunResult { out: out, model: mc, used: 0int });
    if dispatch_fetches(m, n1) {
        assert(p1 == RunResult { out: dispatch_out(m, n1), model: mc, used: 0int });
        assert(tr.skip(0) =~= tr);
        assert(dispatch_fetches(mc, n2));
        assert(p2 == RunResult {
            out: dispatch_out(mc, n2),
            model: ChannelModel { wait_left: 0, ..mc },
            used: 0int,
        });
        assert(dispatch_out(mc, n2) =~= Seq::<Samp>::empty());
        assert((ChannelModel { wait_left: 0, ..mc }) =~= mc);
        assert(dispatch_out(m, n1) =~= out);
        assert(p1.out + p2.out =~= out);
        assert(whole =~= goal);
    } else {
        // Waiting, with the countdown spanning the boundary.
        assert(m.state is Waiting);
        assert(dispatch_len(m, n1) == n1);
        let mb = dispatch_post(m, n1, (None, 0int));
        let rec1b = run(mb, tr, 0, fuel);
        assert(rec1b == RunResult { out: Seq::<Samp>::empty(), model: mb, used: 0int });
        assert(p1 == RunResult { out: dispatch_out(m, n1) + rec1b.out, model: mb, used: 0int });
        assert(tr.skip(0) =~= tr);
        assert(dispatch_fetches(mb, n2));
        assert(p2 == RunResult {
            out: dispatch_out(mb, n2),
            model: ChannelModel { wait_left: 0, ..mb },
            used: 0int,
        });
        assert((ChannelModel { wait_left: 0, ..mb }) =~= mc);
        assert(p1.out + p2.out =~= out);
        assert(whole =~= goal);
    }
}

/// Split case: a `Waiting` countdown spans the boundary and the second pull
/// completes it and fetches the cue the single pull would have fetched.
#[verifier::rlimit(60)]
proof fn lemma_run_split_wait_boundary(
    m: ChannelModel,
    tr: Seq<TraceEntry>,
    n1: int,
    n2: int,
    fuel: int,
)
    requires
        model_wf(m),
        n1 > 0,
        n2 > 0,
        !(m.state is Finished),
        dispatch_fetches(m, n1 + n2),
        !dispatch_fetches(m, n1),
        fuel > 0,
    ensures
        split_goal(m, tr, n1, n2, fuel),
{
    let whole = run(m, tr, n1 + n2, fuel);
    let p1 = run(m, tr, n1, fuel);
    lemma_run_used(m, tr, n1, fuel);
    let p2 = run(p1.model, tr.skip(p1.used), n2, fuel - p1.used);
    let goal = RunResult { out: p1.out + p2.out, model: p2.model, used: p1.used + p2.used };
    let k = dispatch_len(m, n1 + n2);
    let out = dispatch_out(m, n1 + n2);
    let t = trace_head(tr);
    let m1 = dispatch_post(m, n1 + n2, t);
    let recw = run(m1, trace_tail(tr), n1 + n2 - k, fuel - 1);
    assert(whole == RunResult {
        out: out + recw.out,
        model: recw.model,
        used: trace_used(tr) + recw.used,
    });
    assert(m.state is Waiting);
    assert(dispatch_len(m, n1) == n1);
    let mb = dispatch_post(m, n1, (None, 0int));
    let rec1b = run(mb, tr, 0, fuel);
    assert(rec1b == RunResult { out: Seq::<Samp>::empty(), model: mb, used: 0int });
    assert(p1 == RunResult { out: dispatch_out(m, n1) + rec1b.out, model: mb, used: 0int });
    assert(tr.skip(0) =~= tr);
    assert(dispatch_fetches(mb, n2));
    assert(dispatch_len(mb, n2) == m.wait_left - n1);
    assert(dispatch_post(mb, n2, t) =~= m1);
    let rec2 = run(m1, trace_tail(tr), n2 - (m.wait_left - n1), fuel - 1);
    assert(p2 == RunResult {
        out: dispatch_out(mb, n2) + rec2.out,
        model: rec2.model,
        used: trace_used(tr) + rec2.used,
    });
    assert(rec2 == recw);
    assert(p1.out + p2.out =~= out + recw.out);
    assert(whole =~= goal);
}

/// Split case: the active producer is spent exactly at the boundary.
#[verifier::rlimit(60)]
proof fn lemma_run_split_exact(m: ChannelModel, tr: Seq<TraceEntry>, n1: int, n2: int, fuel: int)
    requires
        model_wf(m),
        n1 > 0,
        n2 > 0,
        !(m.state is Finished),
        !dispatch_fetches(m, n1 + n2),
        avail(m) == n1,
    ensures
        split_goal(m, tr, n1, n2, fuel),
{
    let whole = run(m, tr, n1 + n2, fuel);
    let p1 = run(m, tr, n1, fuel);
    lemma_run_used(m, tr, n1, fuel);
    let p2 = run(p1.model, tr.skip(p1.used), n2, fuel - p1.used);
    let goal = RunResult { out: p1.out + p2.out, model: p2.model, used: p1.used + p2.used };
    let k = dispatch_len(m, n1 + n2);
    let out = dispatch_out(m, n1 + n2);
    let ma = dispatch_post(m, n1 + n2, (None, 0int));
    let recw = run(ma, tr, n1 + n2 - k, fuel);
    assert(whole == RunResult { out: out + recw.out, model: recw.model, used: recw.used });
    assert(!dispatch_fetches(m, n1));
    assert(dispatch_len(m, n1) == n1);
    assert(k == n1);
    assert(dispatch_out(m, n1) =~= out);
    let mb = dispatch_post(m, n1, (None, 0int));
    let rec1b = run(mb, tr, 0, fuel);
    assert(rec1b == RunResult { out: Seq::<Samp>::empty(), model: mb, used: 0int });
    assert(p1 == RunResult { out: out + rec1b.out, model: mb, used: 0int });
    assert(tr.skip(0) =~= tr);
    match m.state {
        ChannelState::Announcing => {
            // The second pull makes one empty delegation, which ends the
            // session, before fetching.
            assert(!dispatch_fetches(mb, n2));
            assert(dispatch_len(mb, n2) == 0);
            assert(dispatch_out(mb, n2) =~= Seq::<Samp>::empty());
            let mb2 = dispatch_post(mb, n2, (None, 0int));
            assert(mb2 =~= ma);
            let rec2 = run(ma, tr, n2, fuel);
            assert(p2 == RunResult {
                out: dispatch_out(mb, n2) + rec2.out,
                model: rec2.model,
                used: rec2.used,
            });
            assert(rec2 == recw);
            assert(p1.out + p2.out =~= out + recw.out);
            assert(whole =~= goal);
        },
        ChannelState::Sampling => {
            assert(mb =~= ma);
            assert(p2 == recw);
            assert(p1.out + p2.out =~= out + recw.out);
            assert(whole =~= goal);
        },
        _ => {
            assert(false);
        },
    }
}

/// Split case: the active producer spans the boundary and the second pull
/// continues it where the first one stopped.
#[verifier::rlimit(60)]
proof fn lemma_run_split_spanning(
    m: ChannelModel,
    tr: Seq<TraceEntry>,
    n1: int,
    n2: int,
    fuel: int,
)
    requires
        model_wf(m),
        n1 > 0,
        n2 > 0,
        !(m.state is Finished),
        !dispatch_fetches(m, n1 + n2),
        avail(m) > n1,
    ensures
        split_goal(m, tr, n1, n2, fuel),
{
    let whole = run(m, tr, n1 + n2, fuel);
    let p1 = run(m, tr, n1, fuel);
    lemma_run_used(m, tr, n1, fuel);
    let p2 = run(p1.model, tr.skip(p1.used), n2, fuel - p1.used);
    let goal = RunResult { out: p1.out + p2.out, model: p2.model, used: p1.used + p2.used };
    let k = dispatch_len(m, n1 + n2);
    let out = dispatch_out(m, n1 + n2);
    let ma = dispatch_post(m, n1 + n2, (None, 0int));
    let recw = run(ma, tr, n1 + n2 - k, fuel);
    assert(whole == RunResult { out: out + recw.out, model: recw.model, used: recw.used });
    assert(!dispatch_fetches(m, n1));
    assert(dispatch_len(m, n1) == n1);
    let mb = dispatch_post(m, n1, (None, 0int));
    let rec1b = run(mb, tr, 0, fuel);
    assert(rec1b == RunResult { out: Seq::<Samp>::empty(), model: mb, used: 0int });
    assert(p1 == RunResult { out: dispatch_out(m, n1) + rec1b.out, model: mb, used: 0int });
    assert(tr.skip(0) =~= tr);
    assert(!dispatch_fetches(mb, n2));
    let k2 = dispatch_len(mb, n2);
    assert(k2 == k - n1);
    let mc2 = dispatch_post(mb, n2, (None, 0int));
    assert(mc2 =~= ma);
    let rec2 = run(ma, tr, n2 - k2, fuel);
    assert(p2 == RunResult {
        out: dispatch_out(mb, n2) + rec2.out,
        model: rec2.model,
        used: rec2.used,
    });
    assert(rec2 == recw);
    let out1 = dispatch_out(m, n1);
    let out2 = dispatch_out(mb, n2);
    match m.state {
        ChannelState::Waiting => {
            assert(out1 + out2 =~= out);
        },
        ChannelState::Announcing => {
            assert(out1 =~= m.speech.take(n1));
            assert(out2 =~= m.speech.skip(n1).take(k2));
            assert forall|i: int| 0 <= i < k implies (out1 + out2)[i] == out[i] by {
                if i < n1 {
                    assert((out1 + out2)[i] == m.speech[i]);
                } else {
                    assert(out2[i - n1] == m.speech.skip(n1)[i - n1]);
                }
                assert(out[i] == m.speech[i]);
            }
            assert(out1 + out2 =~= out);
        },
        ChannelState::Sampling => {
            let sl = m.slice->Some_0;
            let clip = m.clips[sl.0];
            assert(out1 =~= scaled(m.volume, clip.subrange(sl.1, sl.1 + n1)));
            assert(out2 =~= scaled(m.volume, clip.subrange(sl.1 + n1, sl.1 + n1 + k2)));
            assert(out =~= scaled(m.volume, clip.subrange(sl.1, sl.1 + k)));
            assert forall|i: int| 0 <= i < k implies (out1 + out2)[i] == out[i] by {
                if i < n1 {
                    assert(out1[i] == scale_samp(m.volume, clip.subrange(sl.1, sl.1 + n1)[i]));
                    assert(clip.subrange(sl.1, sl.1 + n1)[i] == clip[sl.1 + i]);
                } else {
                    assert(out2[i - n1] == scale_samp(
                        m.volume,
                        clip.subrange(sl.1 + n1, sl.1 + n1 + k2)[i - n1],
                    ));
                    assert(clip.subrange(sl.1 + n1, sl.1 + n1 + k2)[i - n1] == clip[sl.1 + i]);
                }
                assert(out[i] == scale_samp(m.volume, clip.subrange(sl.1, sl.1 + k)[i]));
                assert(clip.subrange(sl.1, sl.1 + k)[i] == clip[sl.1 + i]);
            }
            assert(out1 + out2 =~= out);
        },
        _ => {
            assert(false);
        },
    }
    assert(p1.out + p2.out =~= out + recw.out);
    assert(whole =~= goal);
}

/// Idempotent buffer semantics: splitting one pull of length `n1 + n2` into
/// two consecutive pulls of lengths `n1` and `n2`, over the same cue stream
/// and the same cumulative state, emits sample-for-sample the same output,
/// consumes the same cues, and ends in the same state.
#[verifier::rlimit(60)]
pub proof fn lemma_run_split(m: ChannelModel, tr: Seq<TraceEntry>, n1: int, n2: int, fuel: int)
    requires
        model_wf(m),
        wf_trace(tr, m.clips.len() as int),
        n1 >= 0,
        n2 >= 0,
    ensures
        ({
            let whole = run(m, tr, n1 + n2, fuel);
            let p1 = run(m, tr, n1, fuel);
            let p2 = run(p1.model, tr.skip(p1.used), n2, fuel - p1.used);
            whole == (RunResult {
                out: p1.out + p2.out,
                model: p2.model,
                used: p1.used + p2.used,
            })
        }),
    decreases fuel, n1 + n2, phase(m),
{
    let whole = run(m, tr, n1 + n2, fuel);
    let p1 = run(m, tr, n1, fuel);
    lemma_run_used(m, tr, n1, fuel);
    let p2 = run(p1.model, tr.skip(p1.used), n2, fuel - p1.used);
    let goal = RunResult { out: p1.out + p2.out, model: p2.model, used: p1.used + p2.used };
    if n1 <= 0 {
        assert(tr.skip(0) =~= tr);
        assert(p1.out + p2.out =~= p2.out);
        assert(whole =~= goal);
    } else if m.state is Finished {
        assert(tr.skip(0) =~= tr);
        assert(p1.out + p2.out =~= Seq::<Samp>::empty());
        assert(whole =~= goal);
    } else if n2 <= 0 {
        assert(p1.out + p2.out =~= p1.out);
        assert(whole =~= goal);
    } else if dispatch_fetches(m, n1 + n2) {
        if fuel <= 0 {
            lemma_run_split_starved(m, tr, n1, n2, fuel);
        } else if !dispatch_fetches(m, n1) {
            lemma_run_split_wait_boundary(m, tr, n1, n2, fuel);
        } else {
            // Both pulls fetch the same cue once the producer is spent.
            let k = dispatch_len(m, n1 + n2);
            let out = dispatch_out(m, n1 + n2);
            let t = trace_head(tr);
            let m1 = dispatch_post(m, n1 + n2, t);
            let recw = run(m1, trace_tail(tr), n1 + n2 - k, fuel - 1);
            assert(whole == RunResult {
                out: out + recw.out,
                model: recw.model,
                used: trace_used(tr) + recw.used,
            });
            assert(dispatch_len(m, n1) == k);
            assert(dispatch_out(m, n1) =~= out);
            assert(dispatch_post(m, n1, t) == m1);
            let rec1 = run(m1, trace_tail(tr), n1 - k, fuel - 1);
            assert(p1 == RunResult {
                out: out + rec1.out,
                model: rec1.model,
                used: trace_used(tr) + rec1.used,
            });
            lemma_dispatch_post_wf(m, n1 + n2, t);
            assert(wf_trace(trace_tail(tr), m1.clips.len() as int)) by {
                if tr.len() > 0 {
                    assert(forall|i: int|
                        0 <= i < trace_tail(tr).len() ==> #[trigger] trace_tail(tr)[i] == tr[i
                            + 1]);
                }
            }
            lemma_run_used(m1, trace_tail(tr), n1 - k, fuel - 1);
            lemma_run_split(m1, trace_tail(tr), n1 - k, n2, fuel - 1);
            let q = run(rec1.model, trace_tail(tr).skip(rec1.used), n2, (fuel - 1) - rec1.used);
            assert(recw == RunResult {
                out: rec1.out + q.out,
                model: q.model,
                used: rec1.used + q.used,
            });
            if tr.len() > 0 {
                assert(tr.skip(1 + rec1.used) =~= trace_tail(tr).skip(rec1.used));
                assert(p2 == q);
                assert(out + (rec1.out + q.out) =~= (out + rec1.out) + q.out);
                assert(whole =~= goal);
            } else {
                // The queue is closed: the fetch observes it and finishes.
                assert(m1.state is Finished);
                assert(rec1 == RunResult { out: Seq::<Samp>::empty(), model: m1, used: 0int });
                assert(tr.skip(0) =~= tr);
                assert(p2 == RunResult { out: Seq::<Samp>::empty(), model: m1, used: 0int });
                assert(p1.out + p2.out =~= out + recw.out);
                assert(whole =~= goal);
            }
        }
    } else {
        let av = avail(m);
        if av < n1 {
            // The producer completes within the first pull.
            let k = dispatch_len(m, n1 + n2);
            let out = dispatch_out(m, n1 + n2);
            let ma = dispatch_post(m, n1 + n2, (None, 0int));
            let recw = run(ma, tr, n1 + n2 - k, fuel);
            assert(whole == RunResult { out: out + recw.out, model: recw.model, used: recw.used });
            assert(!dispatch_fetches(m, n1));
            assert(dispatch_len(m, n1) == k);
            assert(dispatch_out(m, n1) =~= out);
            let mb = dispatch_post(m, n1, (None, 0int));
            assert(mb =~= ma);
            let rec1 = run(ma, tr, n1 - k, fuel);
            assert(p1 == RunResult { out: out + rec1.out, model: rec1.model, used: rec1.used });
            lemma_dispatch_post_wf(m, n1 + n2, (None, 0int));
            lemma_run_used(ma, tr, n1 - k, fuel);
            lemma_run_split(ma, tr, n1 - k, n2, fuel);
            let q = run(rec1.model, tr.skip(rec1.used), n2, fuel - rec1.used);
            assert(recw == RunResult {
                out: rec1.out + q.out,
                model: q.model,
                used: rec1.used + q.used,
            });
            assert(p2 == q);
            assert(out + (rec1.out + q.out) =~= (out + rec1.out) + q.out);
            assert(whole =~= goal);
        } else if av == n1 {
            lemma_run_split_exact(m, tr, n1, n2, fuel);
        } else {
            lemma_run_split_spanning(m, tr, n1, n2, fuel);
        }
    }
}

/// The silent samples a sequence of pulls of the given sizes drains from a
/// `Waiting` countdown of `w` samples: each pull emits as much of the
/// remaining wait as its size allows — exactly how the `Waiting` state
/// behaves.
pub open spec fn silence_emitted(w: int, reqs: Seq<int>) -> int
    decreases reqs.len(),
{
    if reqs.len() == 0 {
        0
    } else {
        let k = vstd::math::min(w, reqs.first());
        k + silence_emitted(w - k, reqs.drop_first())
    }
}

/// The total silence a `Delay(d)` countdown emits before the next cue is
/// fetched depends only on the total of the pull sizes, never on how they
/// partition the stream: once the pulls cover `w`, exactly `w` silent
/// samples have been emitted and the countdown state is spent.
pub proof fn lemma_delay_partition(w: int, reqs: Seq<int>)
    requires
        w >= 0,
        forall|i: int| 0 <= i < reqs.len() ==> reqs[i] >= 0,
    ensures
        silence_emitted(w, reqs) == vstd::math::min(w, crate::tts::total_req(reqs)),
        crate::tts::total_req(reqs) >= w ==> silence_emitted(w, reqs) == w,
    decreases reqs.len(),
{
    if reqs.len() > 0 {
        let k = vstd::math::min(w, reqs.first());
        let rest = reqs.drop_first();
        assert(forall|i: int| 0 <= i < rest.len() ==> #[trigger] rest[i] == reqs[i + 1]);
        crate::tts::lemma_total_req_nonneg(rest);
        lemma_delay_partition(w - k, rest);
    }
}

/// Effect playback emits, ignoring amplitude, a contiguous order-preserving
/// segment of exactly one clip, scaled elementwise: two successive slice
/// emissions concatenate to the one segment a single emission would give.
pub proof fn lemma_effect_contiguous(amp: u32, clip: Seq<Samp>, off: int, k1: int, k2: int)
    requires
        0 <= off,
        0 <= k1,
        0 <= k2,
        off + k1 + k2 <= clip.len(),
    ensures
        scaled(amp, clip.subrange(off, off + k1)) + scaled(
            amp,
            clip.subrange(off + k1, off + k1 + k2),
        ) == scaled(amp, clip.subrange(off, off + k1 + k2)),
        forall|i: int|
            0 <= i < k1 + k2 ==> #[trigger] scaled(amp, clip.subrange(off, off + k1 + k2))[i]
                == scale_samp(amp, clip[off + i]),
{
    assert(scaled(amp, clip.subrange(off, off + k1)) + scaled(
        amp,
        clip.subrange(off + k1, off + k1 + k2),
    ) =~= scaled(amp, clip.subrange(off, off + k1 + k2)));
}

/// Fill `buf[from..from + count]` with silence.
fn fill_silence(buf: &mut Vec<Samp>, from: usize, count: usize)
    requires
        from + count <= old(buf)@.len(),
    ensures
        final(buf)@.len() == old(buf)@.len(),
        written(old(buf)@, final(buf)@, from as int, silence(count as int)),
{
    let blen = buf.len();
    let mut i: usize = 0;
    while i < count
        invariant
            i <= count,
            from + count <= blen,
            buf@.len() == blen,
            old(buf)@.len() == blen,
            forall|j: int|
                0 <= j < buf@.len() && !(from <= j < from + i) ==> buf@[j] == #[trigger] old(
                    buf,
                )@[j],
            forall|j: int| 0 <= j < i ==> #[trigger] buf@[from + j] == 0 as Samp,
        decreases count - i,
    {
        buf[from + i] = 0;
        i = i + 1;
    }
    proof {
        assert(forall|j: int| 0 <= j < count ==> buf@[from + j] == #[trigger] silence(
            count as int,
        )[j]);
    }
}

#[verifier::external_type_specification]
#[verifier::external_body]
#[verifier::reject_recursive_types(T)]
pub struct ExReceiver<T>(std::sync::mpsc::Receiver<T>);

#[verifier::external_type_specification]
#[verifier::external_body]
pub struct ExRng(fastrand::Rng);

/// Relies on std's `mpsc::Receiver::recv`: it blocks until the producer sends
/// the next value, returning it in order, or reports an error once the
/// sending side is gone and the queue is drained. Which cue arrives depends
/// on the producer thread, so nothing is promised of the result.
#[verifier::external_body]
fn recv_event(rx: &std::sync::mpsc::Receiver<AnnounceEvent>) -> (ev: Option<AnnounceEvent>) {
    rx.recv().ok()
}

/// Relies on `fastrand::Rng::with_seed`: builds a generator deterministically
/// from the seed.
#[verifier::external_body]
fn rng_with_seed(seed: u64) -> (rng: fastrand::Rng) {
    fastrand::Rng::with_seed(seed)
}

/// Relies on `fastrand::Rng::usize`: returns a value uniform in the given
/// range, and panics on an empty one — so the range is required non-empty,
/// and the result is below `n`.
#[verifier::external_body]
fn random_index(rng: &mut fastrand::Rng, n: usize) -> (r: usize)
    requires
        n > 0,
    ensures
        r < n,
{
    rng.usize(..n)
}

} // verus!
