//! The streaming segmenter: consumes 16 kHz mono PCM16 audio, runs
//! frame-level voice-activity detection over 20 ms frames, and emits
//! `Partial`, `Final` and `Reset` events describing utterances.
//!
//! A frame is voiced when its RMS reaches the configured threshold, which
//! over integer samples is exactly: the sum of squared samples reaches the
//! squared threshold times the frame length.

use vstd::prelude::*;

use std::collections::VecDeque;

verus! {

/// Runtime settings, with durations in milliseconds and the voice threshold
/// in PCM16 units (the RMS value `t` of a float pipeline scales to
/// `t * 32768`).
#[derive(Clone, Copy, Debug)]
pub struct StreamingConfig {
    /// Samples per second of the incoming audio.
    pub sample_rate_hz: u32,
    /// RMS threshold at or above which a frame counts as voiced.
    pub vad_threshold: u16,
    /// Silence tail that closes a segment.
    pub vad_end_silence_ms: u32,
    /// Hard cap on utterance length before a forced flush.
    pub max_segment_ms: u32,
    /// Audio preserved from just before voice onset.
    pub pre_roll_ms: u32,
    /// Minimum utterance length before partials or finals are emitted.
    pub min_speech_ms: u32,
    /// Minimum gap between partial decodes.
    pub asr_step_ms: u32,
    /// Sliding-window length for partials; zero disables windowing.
    pub max_window_ms: u32,
}

/// Bounds under which every derived sample count fits comfortably in a
/// machine word.
pub open spec fn valid_config(cfg: StreamingConfig) -> bool {
    &&& 1 <= cfg.sample_rate_hz <= 192_000
    &&& cfg.vad_end_silence_ms <= 3_600_000
    &&& cfg.max_segment_ms <= 3_600_000
    &&& cfg.pre_roll_ms <= 3_600_000
    &&& cfg.min_speech_ms <= 3_600_000
    &&& cfg.asr_step_ms <= 3_600_000
    &&& cfg.max_window_ms <= 3_600_000
}

/// An event on the stream of a single audio push.
#[derive(Debug)]
pub enum StreamingEvent {
    /// The tail window of the still-growing utterance.
    Partial(Vec<i16>),
    /// The full closed utterance.
    Final(Vec<i16>),
    /// The in-progress utterance was abandoned; no final will follow.
    Reset,
}

/// The mathematical image of an event.
#[verifier::ext_equal]
pub ghost enum EventModel {
    Partial(Seq<i16>),
    Final(Seq<i16>),
    Reset,
}

impl View for StreamingEvent {
    type V = EventModel;

    open spec fn view(&self) -> EventModel {
        match self {
            StreamingEvent::Partial(v) => EventModel::Partial(v@),
            StreamingEvent::Final(v) => EventModel::Final(v@),
            StreamingEvent::Reset => EventModel::Reset,
        }
    }
}

/// The images of a sequence of events.
pub open spec fn events_view(evs: Seq<StreamingEvent>) -> Seq<EventModel> {
    evs.map_values(|e: StreamingEvent| e@)
}

/// The segmenter's derived, construction-time constants.
#[verifier::ext_equal]
pub ghost struct SegParams {
    pub vad_threshold: int,
    pub frame_size: int,
    pub end_silence_frames: int,
    pub min_speech_samples: int,
    pub max_segment_samples: int,
    pub pre_roll_samples: int,
    pub asr_step_samples: int,
    pub max_window_samples: int,
}

/// The segmenter's voice-activity state between frames.
#[verifier::ext_equal]
pub ghost struct SegModel {
    pub in_speech: bool,
    pub silent_frames: int,
    pub pre_roll: Seq<i16>,
    pub utterance: Seq<i16>,
    pub last_asr: int,
}

pub open spec fn spec_max(a: int, b: int) -> int {
    if a >= b {
        a
    } else {
        b
    }
}

pub open spec fn spec_min(a: int, b: int) -> int {
    if a <= b {
        a
    } else {
        b
    }
}

/// A duration in milliseconds converted to samples, rounded to nearest.
pub open spec fn rounded_samples(ms: int, rate: int) -> int {
    (ms * rate + 500) / 1000
}

/// Samples per 20 ms frame, at least one.
pub open spec fn spec_frame_size(rate: int) -> int {
    spec_max((rate + 25) / 50, 1)
}

/// The constants derived from a configuration.
pub open spec fn params_of(cfg: StreamingConfig) -> SegParams {
    let rate = cfg.sample_rate_hz as int;
    let max_seg = spec_max(rounded_samples(cfg.max_segment_ms as int, rate), 1);
    let win = rounded_samples(cfg.max_window_ms as int, rate);
    SegParams {
        vad_threshold: cfg.vad_threshold as int,
        frame_size: spec_frame_size(rate),
        end_silence_frames: spec_max((cfg.vad_end_silence_ms as int + 10) / 20, 1),
        min_speech_samples: spec_max(rounded_samples(cfg.min_speech_ms as int, rate), 1),
        max_segment_samples: max_seg,
        pre_roll_samples: rounded_samples(cfg.pre_roll_ms as int, rate),
        asr_step_samples: spec_max(rounded_samples(cfg.asr_step_ms as int, rate), 1),
        max_window_samples: if win == 0 {
            max_seg
        } else {
            spec_min(win, max_seg)
        },
    }
}

/// Sanity of derived constants, independent of any configuration.
pub open spec fn params_ok(p: SegParams) -> bool {
    &&& 1 <= p.frame_size <= 3841
    &&& 1 <= p.end_silence_frames <= 200_000
    &&& 1 <= p.min_speech_samples <= 700_000_000
    &&& 1 <= p.max_segment_samples <= 700_000_000
    &&& 0 <= p.pre_roll_samples <= 700_000_000
    &&& 1 <= p.asr_step_samples <= 700_000_000
    &&& 1 <= p.max_window_samples <= p.max_segment_samples
    &&& 0 <= p.vad_threshold
}

/// The sum of squared samples of a frame.
pub open spec fn sum_sq(frame: Seq<i16>) -> int
    decreases frame.len(),
{
    if frame.len() == 0 {
        0
    } else {
        sum_sq(frame.drop_last()) + frame.last() * frame.last()
    }
}

/// Whether a frame is voiced: its RMS reaches the threshold, stated without
/// square roots as a comparison of the sum of squares against the squared
/// threshold scaled by the frame length.
pub open spec fn frame_voiced_spec(frame: Seq<i16>, thr: int) -> bool {
    sum_sq(frame) >= thr * thr * frame.len()
}

/// The pre-roll ring after a frame of silence: the frame is appended and the
/// oldest samples trimmed to the capacity; a capacity of zero leaves the
/// ring untouched.
pub open spec fn push_pre_roll_spec(pr: Seq<i16>, frame: Seq<i16>, cap: int) -> Seq<i16> {
    if cap == 0 {
        pr
    } else {
        let e = pr + frame;
        if e.len() <= cap {
            e
        } else {
            e.skip(e.len() - cap)
        }
    }
}

/// The last `w` samples of the utterance (all of it when shorter).
pub open spec fn window_spec(utt: Seq<i16>, w: int) -> Seq<i16> {
    if utt.len() <= w {
        utt
    } else {
        utt.skip(utt.len() - w)
    }
}

/// The state after an utterance ends or is abandoned.
pub open spec fn reset_model() -> SegModel {
    SegModel {
        in_speech: false,
        silent_frames: 0,
        pre_roll: Seq::empty(),
        utterance: Seq::empty(),
        last_asr: 0,
    }
}

/// One frame of segmentation: appends to the utterance while in speech,
/// terminates on a long-enough silence tail or the segment cap (emitting
/// `Final` when the utterance reached the minimum speech length, `Reset`
/// otherwise), emits a windowed `Partial` when the decode step is due, and
/// otherwise tracks the pre-roll ring until a voiced frame starts an
/// utterance from it.
pub open spec fn step_spec(p: SegParams, st: SegModel, frame: Seq<i16>) -> (SegModel, Seq<
    EventModel,
>) {
    let voiced = frame_voiced_spec(frame, p.vad_threshold);
    if st.in_speech {
        let utt = st.utterance + frame;
        let sf = if voiced {
            0int
        } else {
            st.silent_frames + 1
        };
        if sf >= p.end_silence_frames || utt.len() >= p.max_segment_samples {
            if utt.len() >= p.min_speech_samples {
                (reset_model(), seq![EventModel::Final(utt)])
            } else {
                (reset_model(), seq![EventModel::Reset])
            }
        } else if utt.len() >= p.min_speech_samples && utt.len() - st.last_asr
            >= p.asr_step_samples {
            (
                SegModel {
                    in_speech: true,
                    silent_frames: sf,
                    pre_roll: st.pre_roll,
                    utterance: utt,
                    last_asr: utt.len() as int,
                },
                seq![EventModel::Partial(window_spec(utt, p.max_window_samples))],
            )
        } else {
            (
                SegModel {
                    in_speech: true,
                    silent_frames: sf,
                    pre_roll: st.pre_roll,
                    utterance: utt,
                    last_asr: st.last_asr,
                },
                Seq::empty(),
            )
        }
    } else {
        let pr = push_pre_roll_spec(st.pre_roll, frame, p.pre_roll_samples);
        if voiced {
            (
                SegModel {
                    in_speech: true,
                    silent_frames: 0,
                    pre_roll: Seq::empty(),
                    utterance: pr,
                    last_asr: 0,
                },
                Seq::empty(),
            )
        } else {
            (
                SegModel {
                    in_speech: false,
                    silent_frames: st.silent_frames,
                    pre_roll: pr,
                    utterance: st.utterance,
                    last_asr: st.last_asr,
                },
                Seq::empty(),
            )
        }
    }
}

/// Segmentation folded over a sequence of frames.
pub open spec fn run_spec(p: SegParams, st: SegModel, frames: Seq<Seq<i16>>) -> (SegModel, Seq<
    EventModel,
>)
    decreases frames.len(),
{
    if frames.len() == 0 {
        (st, Seq::empty())
    } else {
        let first = step_spec(p, st, frames[0]);
        let rest = run_spec(p, first.0, frames.drop_first());
        (rest.0, first.1 + rest.1)
    }
}

/// Appending one more frame to a run applies one more step.
pub proof fn lemma_run_snoc(p: SegParams, st: SegModel, frames: Seq<Seq<i16>>, f: Seq<i16>)
    ensures
        ({
            let whole = run_spec(p, st, frames.push(f));
            let prefix = run_spec(p, st, frames);
            let last = step_spec(p, prefix.0, f);
            whole.0 == last.0 && whole.1 == prefix.1 + last.1
        }),
    decreases frames.len(),
{
    reveal_with_fuel(run_spec, 3);
    let pushed = frames.push(f);
    let prefix = run_spec(p, st, frames);
    let last = step_spec(p, prefix.0, f);
    let whole = run_spec(p, st, pushed);
    if frames.len() == 0 {
        assert(pushed[0] == f);
        assert(pushed.drop_first() =~= Seq::<Seq<i16>>::empty());
        assert(prefix.0 == st);
        assert(whole.0 == last.0);
        assert(whole.1 =~= prefix.1 + last.1);
    } else {
        assert(pushed[0] == frames[0]);
        assert(pushed.drop_first() =~= frames.drop_first().push(f));
        let st1 = step_spec(p, st, frames[0]).0;
        lemma_run_snoc(p, st1, frames.drop_first(), f);
        let sub = run_spec(p, st1, frames.drop_first());
        let sublast = step_spec(p, sub.0, f);
        assert(run_spec(p, st1, pushed.drop_first()).0 == sublast.0);
        assert(run_spec(p, st1, pushed.drop_first()).1 == sub.1 + sublast.1);
        assert(prefix.0 == sub.0);
        assert(prefix.1 == step_spec(p, st, frames[0]).1 + sub.1);
        assert(whole.0 == sublast.0);
        assert(whole.1 == step_spec(p, st, frames[0]).1 + (sub.1 + sublast.1));
        assert(whole.1 =~= prefix.1 + last.1);
    }
}

/// The whole 20 ms frames at the front of a buffer.
pub open spec fn frames_of(buf: Seq<i16>, fsz: int) -> Seq<Seq<i16>> {
    Seq::new((buf.len() as int / fsz) as nat, |i: int| buf.subrange(i * fsz, (i + 1) * fsz))
}

/// The state invariant the segmenter maintains between frames: the pre-roll
/// ring never exceeds its capacity, the utterance is empty outside speech
/// and bounded during it, and the partial cursor never passes the utterance.
pub open spec fn seg_inv(p: SegParams, st: SegModel) -> bool {
    &&& st.pre_roll.len() <= p.pre_roll_samples
    &&& 0 <= st.silent_frames
    &&& st.in_speech ==> st.silent_frames < p.end_silence_frames
    &&& st.in_speech ==> st.utterance.len() < spec_max(
        p.pre_roll_samples + 1,
        p.max_segment_samples,
    )
    &&& st.in_speech ==> 0 <= st.last_asr <= st.utterance.len()
    &&& st.in_speech && p.pre_roll_samples > 0 ==> st.utterance.len() > 0
    &&& st.in_speech ==> st.pre_roll.len() == 0
    &&& !st.in_speech ==> st.utterance.len() == 0 && st.last_asr == 0 && st.silent_frames == 0
}

/// One step preserves the invariant.
pub proof fn lemma_step_preserves_inv(p: SegParams, st: SegModel, frame: Seq<i16>)
    requires
        params_ok(p),
        seg_inv(p, st),
        frame.len() == p.frame_size,
    ensures
        seg_inv(p, step_spec(p, st, frame).0),
{
}

/// A run preserves the invariant, so at every observation point between
/// frames the pre-roll ring holds at most `pre_roll_samples` samples and
/// the utterance bookkeeping is consistent.
pub proof fn lemma_run_preserves_inv(p: SegParams, st: SegModel, frames: Seq<Seq<i16>>)
    requires
        params_ok(p),
        seg_inv(p, st),
        forall|i: int| 0 <= i < frames.len() ==> (#[trigger] frames[i]).len() == p.frame_size,
    ensures
        seg_inv(p, run_spec(p, st, frames).0),
    decreases frames.len(),
{
    if frames.len() == 0 {
    } else {
        lemma_step_preserves_inv(p, st, frames[0]);
        lemma_run_preserves_inv(p, step_spec(p, st, frames[0]).0, frames.drop_first());
    }
}

/// The state after the first `i` frames of a run.
pub open spec fn state_at(p: SegParams, st: SegModel, frames: Seq<Seq<i16>>, i: int) -> SegModel {
    run_spec(p, st, frames.take(i)).0
}

/// All samples of a sequence of frames, in order.
pub open spec fn concat_frames(fs: Seq<Seq<i16>>) -> Seq<i16>
    decreases fs.len(),
{
    if fs.len() == 0 {
        Seq::empty()
    } else {
        concat_frames(fs.drop_last()) + fs.last()
    }
}

proof fn lemma_state_advance(p: SegParams, st: SegModel, frames: Seq<Seq<i16>>, i: int)
    requires
        0 <= i < frames.len(),
    ensures
        state_at(p, st, frames, i + 1) == step_spec(p, state_at(p, st, frames, i), frames[i]).0,
{
    lemma_run_snoc(p, st, frames.take(i), frames[i]);
    assert(frames.take(i).push(frames[i]) =~= frames.take(i + 1));
}

/// While a run stays in speech, the utterance grows by exactly the frames
/// consumed: at `b` it is the utterance at `a` plus every sample of the
/// frames in between.
pub proof fn lemma_utterance_tracks(
    p: SegParams,
    st: SegModel,
    frames: Seq<Seq<i16>>,
    a: int,
    b: int,
)
    requires
        0 <= a <= b <= frames.len(),
        forall|m: int| a <= m <= b ==> state_at(p, st, frames, m).in_speech,
    ensures
        state_at(p, st, frames, b).utterance == state_at(p, st, frames, a).utterance
            + concat_frames(frames.subrange(a, b)),
    decreases b - a,
{
    if a == b {
        assert(frames.subrange(a, b) =~= Seq::<Seq<i16>>::empty());
        assert(state_at(p, st, frames, b).utterance =~= state_at(p, st, frames, a).utterance
            + concat_frames(frames.subrange(a, b)));
    } else {
        lemma_utterance_tracks(p, st, frames, a, b - 1);
        lemma_state_advance(p, st, frames, b - 1);
        let before = state_at(p, st, frames, b - 1);
        let after = state_at(p, st, frames, b);
        assert(before.in_speech && after.in_speech);
        assert(after.utterance == before.utterance + frames[b - 1]);
        assert(frames.subrange(a, b).drop_last() =~= frames.subrange(a, b - 1));
        assert(frames.subrange(a, b).last() == frames[b - 1]);
        assert(state_at(p, st, frames, a).utterance + concat_frames(frames.subrange(a, b - 1))
            + frames[b - 1] =~= state_at(p, st, frames, a).utterance + (concat_frames(
            frames.subrange(a, b - 1),
        ) + frames[b - 1]));
    }
}

/// A `Final` payload spans its segment exactly: the pre-roll as captured by
/// the onset frame, followed by every frame from just after the onset
/// through the terminating frame. Chained over the segments of a stream,
/// the concatenation of `Final` payloads is the concatenation of the
/// samples between each voice onset and its termination, prefixed by the
/// pre-roll of silence before the onset.
pub proof fn lemma_final_spans_segment(
    p: SegParams,
    st: SegModel,
    frames: Seq<Seq<i16>>,
    onset: int,
    term: int,
)
    requires
        0 <= onset <= term < frames.len(),
        !state_at(p, st, frames, onset).in_speech,
        forall|m: int| onset + 1 <= m <= term ==> state_at(p, st, frames, m).in_speech,
        step_spec(p, state_at(p, st, frames, term), frames[term]).1.len() > 0,
        step_spec(p, state_at(p, st, frames, term), frames[term]).1[0] is Final,
    ensures
        step_spec(p, state_at(p, st, frames, term), frames[term]).1 == seq![
            EventModel::Final(
                push_pre_roll_spec(
                    state_at(p, st, frames, onset).pre_roll,
                    frames[onset],
                    p.pre_roll_samples,
                ) + concat_frames(frames.subrange(onset + 1, term + 1)),
            ),
        ],
{
    lemma_state_advance(p, st, frames, onset);
    let at_onset = state_at(p, st, frames, onset);
    let entered = state_at(p, st, frames, onset + 1);
    assert(entered.in_speech);
    assert(entered.utterance == push_pre_roll_spec(
        at_onset.pre_roll,
        frames[onset],
        p.pre_roll_samples,
    ));
    lemma_utterance_tracks(p, st, frames, onset + 1, term);
    let at_term = state_at(p, st, frames, term);
    let ev = step_spec(p, at_term, frames[term]).1;
    assert(at_term.in_speech);
    assert(ev == seq![EventModel::Final(at_term.utterance + frames[term])]);
    assert(frames.subrange(onset + 1, term + 1).drop_last() =~= frames.subrange(onset + 1, term));
    assert(frames.subrange(onset + 1, term + 1).last() == frames[term]);
    assert(entered.utterance + concat_frames(frames.subrange(onset + 1, term)) + frames[term]
        =~= entered.utterance + (concat_frames(frames.subrange(onset + 1, term))
        + frames[term]));
}

proof fn lemma_last_flip(p: SegParams, st: SegModel, frames: Seq<Seq<i16>>, a: int, b: int)
    requires
        0 <= a <= b <= frames.len(),
        !state_at(p, st, frames, a).in_speech,
        state_at(p, st, frames, b).in_speech,
    ensures
        exists|m: int|
            a <= m < b && !state_at(p, st, frames, m).in_speech && (forall|k: int|
                m < k <= b ==> #[trigger] state_at(p, st, frames, k).in_speech),
    decreases b - a,
{
    assert(a < b);
    if !state_at(p, st, frames, b - 1).in_speech {
        let m = b - 1;
        assert(!state_at(p, st, frames, m).in_speech && (forall|k: int|
            m < k <= b ==> #[trigger] state_at(p, st, frames, k).in_speech));
    } else {
        lemma_last_flip(p, st, frames, a, b - 1);
        let m = choose|m: int|
            a <= m < b - 1 && !state_at(p, st, frames, m).in_speech && (forall|k: int|
                m < k <= b - 1 ==> #[trigger] state_at(p, st, frames, k).in_speech);
        assert(!state_at(p, st, frames, m).in_speech && (forall|k: int|
            m < k <= b ==> #[trigger] state_at(p, st, frames, k).in_speech));
    }
}

/// Every `Final` a run emits spans exactly one segment of the stream,
/// whatever state the run began in. Either speech was already in progress
/// at the start and never broke, and the payload is the carried utterance
/// followed by every frame through the termination; or there is a voice
/// onset in the run, speech is unbroken from it to the terminating frame,
/// and the payload is the pre-roll as captured by the onset frame followed
/// by every frame from just after the onset through the termination.
/// Segments of one stream cannot overlap (`lemma_segments_disjoint`), so
/// concatenating the `Final` payloads concatenates exactly those
/// per-segment spans, in order.
pub proof fn lemma_every_final_spans_its_segment(
    p: SegParams,
    st: SegModel,
    frames: Seq<Seq<i16>>,
    j: int,
)
    requires
        0 <= j < frames.len(),
        step_spec(p, state_at(p, st, frames, j), frames[j]).1.len() > 0,
        step_spec(p, state_at(p, st, frames, j), frames[j]).1[0] is Final,
    ensures
        (forall|m: int| 0 <= m <= j ==> #[trigger] state_at(p, st, frames, m).in_speech)
            ==> step_spec(p, state_at(p, st, frames, j), frames[j]).1 == seq![
            EventModel::Final(st.utterance + concat_frames(frames.take(j + 1))),
        ],
        !(forall|m: int| 0 <= m <= j ==> #[trigger] state_at(p, st, frames, m).in_speech)
            ==> exists|onset: int|
            {
                &&& 0 <= onset <= j
                &&& !(#[trigger] state_at(p, st, frames, onset)).in_speech
                &&& (forall|m: int|
                    onset + 1 <= m <= j ==> #[trigger] state_at(p, st, frames, m).in_speech)
                &&& step_spec(p, state_at(p, st, frames, j), frames[j]).1 == seq![
                    EventModel::Final(
                        push_pre_roll_spec(
                            state_at(p, st, frames, onset).pre_roll,
                            frames[onset],
                            p.pre_roll_samples,
                        ) + concat_frames(frames.subrange(onset + 1, j + 1)),
                    ),
                ]
            },
{
    assert(state_at(p, st, frames, j).in_speech);
    if forall|m: int| 0 <= m <= j ==> #[trigger] state_at(p, st, frames, m).in_speech {
        lemma_utterance_tracks(p, st, frames, 0, j);
        let at_term = state_at(p, st, frames, j);
        assert(frames.take(0) =~= Seq::<Seq<i16>>::empty());
        assert(state_at(p, st, frames, 0) == st);
        assert(frames.subrange(0, j) =~= frames.take(j));
        assert(at_term.utterance == st.utterance + concat_frames(frames.take(j)));
        assert(frames.take(j + 1).drop_last() =~= frames.take(j));
        assert(frames.take(j + 1).last() == frames[j]);
        assert(st.utterance + concat_frames(frames.take(j)) + frames[j] =~= st.utterance
            + (concat_frames(frames.take(j)) + frames[j]));
        assert(step_spec(p, at_term, frames[j]).1 == seq![
            EventModel::Final(st.utterance + concat_frames(frames.take(j + 1))),
        ]);
    } else {
        let m0 = choose|m: int| 0 <= m <= j && !(#[trigger] state_at(p, st, frames, m)).in_speech;
        assert(m0 < j);
        lemma_last_flip(p, st, frames, m0, j);
        let onset = choose|m: int|
            m0 <= m < j && !state_at(p, st, frames, m).in_speech && (forall|k: int|
                m < k <= j ==> #[trigger] state_at(p, st, frames, k).in_speech);
        lemma_final_spans_segment(p, st, frames, onset, j);
        assert({
            &&& 0 <= onset <= j
            &&& !(#[trigger] state_at(p, st, frames, onset)).in_speech
            &&& (forall|m: int|
                onset + 1 <= m <= j ==> #[trigger] state_at(p, st, frames, m).in_speech)
            &&& step_spec(p, state_at(p, st, frames, j), frames[j]).1 == seq![
                EventModel::Final(
                    push_pre_roll_spec(
                        state_at(p, st, frames, onset).pre_roll,
                        frames[onset],
                        p.pre_roll_samples,
                    ) + concat_frames(frames.subrange(onset + 1, j + 1)),
                ),
            ]
        });
    }
}

/// A run splits at any frame boundary: the whole stream's events are the
/// events of the first `k` frames followed by the events of the rest, run
/// from the intermediate state. Consecutive audio pushes therefore compose
/// into one run over the concatenated stream.
pub proof fn lemma_run_split(p: SegParams, st: SegModel, frames: Seq<Seq<i16>>, k: int)
    requires
        0 <= k <= frames.len(),
    ensures
        run_spec(p, st, frames).0 == run_spec(
            p,
            state_at(p, st, frames, k),
            frames.skip(k),
        ).0,
        run_spec(p, st, frames).1 == run_spec(p, st, frames.take(k)).1 + run_spec(
            p,
            state_at(p, st, frames, k),
            frames.skip(k),
        ).1,
    decreases k,
{
    if k == 0 {
        assert(frames.take(0) =~= Seq::<Seq<i16>>::empty());
        assert(frames.skip(0) =~= frames);
        assert(run_spec(p, st, frames).1 =~= run_spec(p, st, frames.take(0)).1 + run_spec(
            p,
            state_at(p, st, frames, 0),
            frames.skip(0),
        ).1);
    } else {
        let st1 = step_spec(p, st, frames[0]).0;
        let rest = frames.drop_first();
        lemma_run_split(p, st1, rest, k - 1);
        assert(frames.take(k).drop_first() =~= rest.take(k - 1));
        assert(frames.take(k)[0] == frames[0]);
        assert(frames.skip(k) =~= rest.skip(k - 1));
        assert(state_at(p, st, frames, k) == state_at(p, st1, rest, k - 1)) by {
            assert(run_spec(p, st, frames.take(k)).0 == run_spec(p, st1, rest.take(k - 1)).0);
        }
        let head = step_spec(p, st, frames[0]).1;
        let mid = run_spec(p, st1, rest.take(k - 1)).1;
        let tail = run_spec(p, state_at(p, st1, rest, k - 1), rest.skip(k - 1)).1;
        assert(run_spec(p, st, frames).1 == head + run_spec(p, st1, rest).1);
        assert(run_spec(p, st1, rest).1 == mid + tail);
        assert(run_spec(p, st, frames.take(k)).1 == head + mid);
        assert(head + (mid + tail) =~= (head + mid) + tail);
    }
}

/// Outside speech, silence is absorbed by the pre-roll ring: a run of
/// unvoiced frames from any silent state emits no events at all and ends
/// still silent.
pub proof fn lemma_silence_emits_nothing(p: SegParams, st: SegModel, frames: Seq<Seq<i16>>)
    requires
        !st.in_speech,
        forall|i: int|
            0 <= i < frames.len() ==> !frame_voiced_spec(#[trigger] frames[i], p.vad_threshold),
    ensures
        run_spec(p, st, frames).1 == Seq::<EventModel>::empty(),
        !run_spec(p, st, frames).0.in_speech,
    decreases frames.len(),
{
    if frames.len() == 0 {
    } else {
        let first = step_spec(p, st, frames[0]);
        assert(!frame_voiced_spec(frames[0], p.vad_threshold));
        assert(first.1 =~= Seq::<EventModel>::empty());
        assert(!first.0.in_speech);
        assert(forall|i: int|
            0 <= i < frames.drop_first().len() ==> !frame_voiced_spec(
                #[trigger] frames.drop_first()[i],
                p.vad_threshold,
            ));
        lemma_silence_emits_nothing(p, first.0, frames.drop_first());
        assert(run_spec(p, st, frames).1 =~= Seq::<EventModel>::empty());
    }
}

/// Segments of one stream do not overlap: a termination at `i` leaves
/// silence behind, so the onset of any later `Final` lies strictly after
/// `i`, and the spans the payloads cover are disjoint and in stream order.
pub proof fn lemma_segments_disjoint(
    p: SegParams,
    st: SegModel,
    frames: Seq<Seq<i16>>,
    i: int,
    onset: int,
    j: int,
)
    requires
        0 <= i < j < frames.len(),
        0 <= onset <= j,
        step_spec(p, state_at(p, st, frames, i), frames[i]).1.len() > 0,
        !(step_spec(p, state_at(p, st, frames, i), frames[i]).1[0] is Partial),
        forall|m: int| onset + 1 <= m <= j ==> #[trigger] state_at(p, st, frames, m).in_speech,
    ensures
        i < onset,
{
    lemma_state_advance(p, st, frames, i);
    assert(!state_at(p, st, frames, i + 1).in_speech);
    if onset <= i {
        assert(state_at(p, st, frames, i + 1).in_speech);
    }
}

proof fn lemma_speech_flip(p: SegParams, st: SegModel, frames: Seq<Seq<i16>>, a: int, b: int)
    requires
        0 <= a <= b <= frames.len(),
        !state_at(p, st, frames, a).in_speech,
        state_at(p, st, frames, b).in_speech,
    ensures
        exists|m: int|
            a <= m < b && !state_at(p, st, frames, m).in_speech && #[trigger] state_at(
                p,
                st,
                frames,
                m + 1,
            ).in_speech,
    decreases b - a,
{
    assert(a < b);
    if !state_at(p, st, frames, b - 1).in_speech {
        assert(!state_at(p, st, frames, b - 1).in_speech && state_at(
            p,
            st,
            frames,
            (b - 1) + 1,
        ).in_speech);
    } else {
        lemma_speech_flip(p, st, frames, a, b - 1);
    }
}

/// After a `Final` or `Reset`, no `Partial` is emitted until a voice onset
/// (a frame on which the segmenter leaves silence) has happened in between.
pub proof fn lemma_no_partial_without_onset(
    p: SegParams,
    st: SegModel,
    frames: Seq<Seq<i16>>,
    i: int,
    j: int,
)
    requires
        0 <= i < j < frames.len(),
        step_spec(p, state_at(p, st, frames, i), frames[i]).1.len() > 0,
        !(step_spec(p, state_at(p, st, frames, i), frames[i]).1[0] is Partial),
        step_spec(p, state_at(p, st, frames, j), frames[j]).1.len() > 0,
        step_spec(p, state_at(p, st, frames, j), frames[j]).1[0] is Partial,
    ensures
        exists|m: int|
            i < m < j && !state_at(p, st, frames, m).in_speech && #[trigger] state_at(
                p,
                st,
                frames,
                m + 1,
            ).in_speech,
{
    lemma_state_advance(p, st, frames, i);
    assert(!state_at(p, st, frames, i + 1).in_speech);
    assert(state_at(p, st, frames, j).in_speech);
    lemma_speech_flip(p, st, frames, i + 1, j);
}

/// Every `Partial` event a run emits carries at most `max_window_samples`
/// samples.
pub proof fn lemma_run_partials_bounded(p: SegParams, st: SegModel, frames: Seq<Seq<i16>>)
    requires
        p.max_window_samples >= 0,
    ensures
        forall|i: int|
            0 <= i < run_spec(p, st, frames).1.len() ==> (#[trigger] run_spec(
                p,
                st,
                frames,
            ).1[i] matches EventModel::Partial(pl) ==> pl.len() <= p.max_window_samples),
    decreases frames.len(),
{
    if frames.len() == 0 {
    } else {
        let first = step_spec(p, st, frames[0]);
        let rest = run_spec(p, first.0, frames.drop_first());
        lemma_run_partials_bounded(p, first.0, frames.drop_first());
        assert forall|i: int|
            0 <= i < run_spec(p, st, frames).1.len() implies (#[trigger] run_spec(
            p,
            st,
            frames,
        ).1[i] matches EventModel::Partial(pl) ==> pl.len() <= p.max_window_samples) by {
            if i < first.1.len() {
                assert(run_spec(p, st, frames).1[i] == first.1[i]);
            } else {
                assert(run_spec(p, st, frames).1[i] == rest.1[i - first.1.len()]);
            }
        }
    }
}

/// Each chopped frame holds exactly `fsz` samples.
pub proof fn lemma_frames_of_wf(buf: Seq<i16>, fsz: int)
    requires
        fsz >= 1,
    ensures
        forall|i: int|
            0 <= i < frames_of(buf, fsz).len() ==> (#[trigger] frames_of(buf, fsz)[i]).len()
                == fsz,
{
    assert forall|i: int|
        0 <= i < frames_of(buf, fsz).len() implies (#[trigger] frames_of(buf, fsz)[i]).len()
        == fsz by {
        let n = buf.len() as int;
        vstd::arithmetic::div_mod::lemma_fundamental_div_mod(n, fsz);
        vstd::arithmetic::div_mod::lemma_mod_bound(n, fsz);
        vstd::arithmetic::div_mod::lemma_div_pos_is_pos(n, fsz);
        assert(i + 1 <= n / fsz);
        assert((i + 1) * fsz <= (n / fsz) * fsz && 0 <= i * fsz && i * fsz <= (i + 1)
            * fsz) by (nonlinear_arith)
            requires
                fsz >= 1,
                0 <= i,
                i + 1 <= n / fsz,
        ;
        assert(fsz * (n / fsz) == (n / fsz) * fsz) by (nonlinear_arith);
        assert(0 <= i * fsz <= (i + 1) * fsz <= buf.len());
        assert((i + 1) * fsz - i * fsz == fsz) by (nonlinear_arith);
        assert(frames_of(buf, fsz)[i] == buf.subrange(i * fsz, (i + 1) * fsz));
        assert(buf.subrange(i * fsz, (i + 1) * fsz).len() == fsz);
    }
}

/// With the minimum speech length at one sample and the partial step past
/// the segment cap, a run emits only `Final` events: every termination
/// yields a segment, and no partial is ever due.
pub proof fn lemma_run_only_finals(p: SegParams, st: SegModel, frames: Seq<Seq<i16>>)
    requires
        params_ok(p),
        seg_inv(p, st),
        p.min_speech_samples == 1,
        p.asr_step_samples > p.max_segment_samples,
        forall|i: int| 0 <= i < frames.len() ==> (#[trigger] frames[i]).len() == p.frame_size,
    ensures
        forall|i: int|
            0 <= i < run_spec(p, st, frames).1.len() ==> #[trigger] run_spec(
                p,
                st,
                frames,
            ).1[i] is Final,
    decreases frames.len(),
{
    if frames.len() == 0 {
    } else {
        let first = step_spec(p, st, frames[0]);
        let rest = run_spec(p, first.0, frames.drop_first());
        assert(frames[0].len() == p.frame_size);
        lemma_step_preserves_inv(p, st, frames[0]);
        assert(forall|i: int| 0 <= i < frames.drop_first().len() ==> (#[trigger] frames.drop_first()[i]).len() == p.frame_size);
        lemma_run_only_finals(p, first.0, frames.drop_first());
        assert forall|i: int|
            0 <= i < run_spec(p, st, frames).1.len() implies #[trigger] run_spec(
            p,
            st,
            frames,
        ).1[i] is Final by {
            if i < first.1.len() {
                assert(run_spec(p, st, frames).1[i] == first.1[i]);
            } else {
                assert(run_spec(p, st, frames).1[i] == rest.1[i - first.1.len()]);
            }
        }
    }
}

/// Decide whether a frame is voiced by comparing its sum of squared samples
/// against the squared threshold scaled by the frame length.
fn frame_voiced(frame: &Vec<i16>, thr: u16) -> (r: bool)
    requires
        frame.len() <= 4000,
    ensures
        r == frame_voiced_spec(frame@, thr as int),
{
    let mut sum: u64 = 0;
    let mut i: usize = 0;
    while i < frame.len()
        invariant
            i <= frame.len() <= 4000,
            sum == sum_sq(frame@.take(i as int)),
            sum <= i * 0x4000_0000,
        decreases frame.len() - i,
    {
        let v: i64 = frame[i] as i64;
        proof {
            assert(v * v <= 0x4000_0000 && v * v >= 0) by (nonlinear_arith)
                requires
                    -32768 <= v <= 32767,
            ;
            assert(frame@.take(i + 1).drop_last() =~= frame@.take(i as int));
            assert(frame@.take(i + 1).last() == frame@[i as int]);
        }
        let sq: u64 = (v * v) as u64;
        sum = sum + sq;
        i += 1;
    }
    proof {
        assert(frame@.take(frame@.len() as int) =~= frame@);
    }
    let t: u64 = thr as u64;
    let n: u64 = frame.len() as u64;
    proof {
        assert(t * t <= 65535 * 65535) by (nonlinear_arith)
            requires
                t <= 65535,
        ;
        assert(t * t * n <= 65535 * 65535 * 4000) by (nonlinear_arith)
            requires
                t * t <= 65535 * 65535,
                n <= 4000,
        ;
    }
    sum >= t * t * n
}

/// Append a silent frame to the pre-roll ring, trimming the oldest samples
/// to the capacity; a capacity of zero leaves the ring untouched.
fn push_pre_roll(pre_roll: &mut VecDeque<i16>, cap: usize, frame: &Vec<i16>)
    ensures
        final(pre_roll)@ == push_pre_roll_spec(old(pre_roll)@, frame@, cap as int),
{
    if cap == 0 {
        return ;
    }
    let ghost e = old(pre_roll)@ + frame@;
    let mut j: usize = 0;
    while j < frame.len()
        invariant
            j <= frame@.len(),
            pre_roll@ =~= old(pre_roll)@ + frame@.take(j as int),
        decreases frame@.len() - j,
    {
        pre_roll.push_back(frame[j]);
        proof {
            assert(pre_roll@ =~= old(pre_roll)@ + frame@.take(j + 1));
        }
        j += 1;
    }
    proof {
        assert(frame@.take(frame@.len() as int) =~= frame@);
        assert(pre_roll@ =~= e);
        assert(pre_roll@ =~= e.skip(e.len() - pre_roll@.len()));
    }
    while pre_roll.len() > cap
        invariant
            cap >= 1,
            pre_roll@.len() <= e.len(),
            pre_roll@.len() >= cap || pre_roll@.len() == e.len(),
            pre_roll@ =~= e.skip(e.len() - pre_roll@.len()),
        decreases pre_roll@.len(),
    {
        let ghost before = pre_roll@;
        let _ = pre_roll.pop_front();
        proof {
            assert(pre_roll@ =~= before.subrange(1, before.len() as int));
            assert(pre_roll@ =~= e.skip(e.len() - pre_roll@.len()));
        }
    }
    proof {
        if e.len() <= cap {
            assert(pre_roll@ =~= e);
        }
    }
}

/// A bounded-latency streaming segmenter over PCM16 audio.
pub struct StreamingSegmenter {
    cfg: StreamingConfig,
    frame_size: usize,
    end_silence_frames: usize,
    min_speech_samples: usize,
    max_segment_samples: usize,
    pre_roll_samples: usize,
    asr_step_samples: usize,
    max_window_samples: usize,
    stash: Vec<i16>,
    stash_pos: usize,
    in_speech: bool,
    silent_frames: usize,
    pre_roll: VecDeque<i16>,
    utterance: Vec<i16>,
    last_asr_samples: usize,
}

impl StreamingSegmenter {
    /// The derived constants in their mathematical image.
    pub closed spec fn params(self) -> SegParams {
        SegParams {
            vad_threshold: self.cfg.vad_threshold as int,
            frame_size: self.frame_size as int,
            end_silence_frames: self.end_silence_frames as int,
            min_speech_samples: self.min_speech_samples as int,
            max_segment_samples: self.max_segment_samples as int,
            pre_roll_samples: self.pre_roll_samples as int,
            asr_step_samples: self.asr_step_samples as int,
            max_window_samples: self.max_window_samples as int,
        }
    }

    /// The voice-activity state in its mathematical image.
    pub closed spec fn model(self) -> SegModel {
        SegModel {
            in_speech: self.in_speech,
            silent_frames: self.silent_frames as int,
            pre_roll: self.pre_roll@,
            utterance: self.utterance@,
            last_asr: self.last_asr_samples as int,
        }
    }

    /// The samples stashed but not yet consumed as whole frames.
    pub closed spec fn pending_view(self) -> Seq<i16> {
        self.stash@.skip(self.stash_pos as int)
    }

    /// Well-formedness: sane derived constants, a consistent stash cursor
    /// with less than one whole frame pending, and the voice-activity
    /// invariant.
    pub closed spec fn wf(self) -> bool {
        &&& params_ok(self.params())
        &&& self.stash_pos <= self.stash@.len()
        &&& self.pending_view().len() < self.params().frame_size
        &&& seg_inv(self.params(), self.model())
    }

    /// What well-formedness guarantees, for modules that build on the
    /// segmenter: sane constants, the voice-activity invariant, and less
    /// than one whole frame pending.
    pub proof fn lemma_wf_implies(&self)
        requires
            self.wf(),
        ensures
            params_ok(self.params()),
            seg_inv(self.params(), self.model()),
            self.pending_view().len() < self.params().frame_size,
    {
    }

    /// A fresh segmenter with every duration converted to frame and sample
    /// counts once, at construction.
    pub fn new(cfg: StreamingConfig) -> (r: StreamingSegmenter)
        requires
            valid_config(cfg),
        ensures
            r.wf(),
            r.params() == params_of(cfg),
            r.model() == reset_model(),
            r.pending_view() == Seq::<i16>::empty(),
    {
        let rate = cfg.sample_rate_hz as u64;
        proof {
            assert((cfg.max_segment_ms as u64) * rate <= 3_600_000 * 192_000) by (nonlinear_arith)
                requires
                    cfg.max_segment_ms <= 3_600_000,
                    rate <= 192_000,
            ;
            assert((cfg.pre_roll_ms as u64) * rate <= 3_600_000 * 192_000) by (nonlinear_arith)
                requires
                    cfg.pre_roll_ms <= 3_600_000,
                    rate <= 192_000,
            ;
            assert((cfg.min_speech_ms as u64) * rate <= 3_600_000 * 192_000) by (nonlinear_arith)
                requires
                    cfg.min_speech_ms <= 3_600_000,
                    rate <= 192_000,
            ;
            assert((cfg.asr_step_ms as u64) * rate <= 3_600_000 * 192_000) by (nonlinear_arith)
                requires
                    cfg.asr_step_ms <= 3_600_000,
                    rate <= 192_000,
            ;
            assert((cfg.max_window_ms as u64) * rate <= 3_600_000 * 192_000) by (nonlinear_arith)
                requires
                    cfg.max_window_ms <= 3_600_000,
                    rate <= 192_000,
            ;
        }
        let fs_raw = (rate + 25) / 50;
        let frame_size: usize = if fs_raw < 1 {
            1
        } else {
            fs_raw as usize
        };
        let esf_raw = ((cfg.vad_end_silence_ms as u64) + 10) / 20;
        let end_silence_frames: usize = if esf_raw < 1 {
            1
        } else {
            esf_raw as usize
        };
        let max_seg_raw = ((cfg.max_segment_ms as u64) * rate + 500) / 1000;
        let max_segment_samples: usize = if max_seg_raw < 1 {
            1
        } else {
            max_seg_raw as usize
        };
        let pre_roll_samples: usize = (((cfg.pre_roll_ms as u64) * rate + 500) / 1000) as usize;
        let min_raw = ((cfg.min_speech_ms as u64) * rate + 500) / 1000;
        let min_speech_samples: usize = if min_raw < 1 {
            1
        } else {
            min_raw as usize
        };
        let asr_raw = ((cfg.asr_step_ms as u64) * rate + 500) / 1000;
        let asr_step_samples: usize = if asr_raw < 1 {
            1
        } else {
            asr_raw as usize
        };
        let win_raw = ((cfg.max_window_ms as u64) * rate + 500) / 1000;
        let mut max_window_samples: usize = if win_raw == 0 {
            max_segment_samples
        } else {
            win_raw as usize
        };
        if max_window_samples > max_segment_samples {
            max_window_samples = max_segment_samples;
        }
        let r = StreamingSegmenter {
            cfg,
            frame_size,
            end_silence_frames,
            min_speech_samples,
            max_segment_samples,
            pre_roll_samples,
            asr_step_samples,
            max_window_samples,
            stash: Vec::new(),
            stash_pos: 0,
            in_speech: false,
            silent_frames: 0,
            pre_roll: VecDeque::new(),
            utterance: Vec::new(),
            last_asr_samples: 0,
        };
        proof {
            assert(r.params() =~= params_of(cfg));
            assert(r.model() =~= reset_model());
            assert(r.pending_view() =~= Seq::<i16>::empty());
        }
        r
    }

    /// Feed audio into the segmenter and collect the events it produces.
    ///
    /// The samples join the stashed remainder of earlier pushes; every whole
    /// 20 ms frame at the front of that buffer is segmented in order, and
    /// the tail shorter than a frame stays stashed. The result and the new
    /// state are exactly those of `run_spec` over those frames, and every
    /// `Partial` payload fits the partial window.
    pub fn push_audio(&mut self, audio: &[i16]) -> (events: Vec<StreamingEvent>)
        requires
            old(self).wf(),
        ensures
            final(self).wf(),
            final(self).params() == old(self).params(),
            ({
                let frames = frames_of(
                    old(self).pending_view() + audio@,
                    old(self).params().frame_size,
                );
                let r = run_spec(old(self).params(), old(self).model(), frames);
                &&& final(self).model() == r.0
                &&& events_view(events@) == r.1
                &&& final(self).pending_view() == (old(self).pending_view() + audio@).skip(
                    frames.len() * old(self).params().frame_size,
                )
            }),
            forall|i: int|
                0 <= i < events@.len() ==> (#[trigger] events@[i]@ matches EventModel::Partial(pl)
                    ==> pl.len() <= old(self).params().max_window_samples),
    {
        let ghost p = old(self).params();
        let ghost m0 = old(self).model();
        let ghost base = old(self).stash_pos as int;
        let mut j: usize = 0;
        while j < audio.len()
            invariant
                j <= audio@.len(),
                self.stash@ =~= old(self).stash@ + audio@.take(j as int),
                self.stash_pos == old(self).stash_pos,
                self.cfg == old(self).cfg,
                self.frame_size == old(self).frame_size,
                self.end_silence_frames == old(self).end_silence_frames,
                self.min_speech_samples == old(self).min_speech_samples,
                self.max_segment_samples == old(self).max_segment_samples,
                self.pre_roll_samples == old(self).pre_roll_samples,
                self.asr_step_samples == old(self).asr_step_samples,
                self.max_window_samples == old(self).max_window_samples,
                self.in_speech == old(self).in_speech,
                self.silent_frames == old(self).silent_frames,
                self.pre_roll == old(self).pre_roll,
                self.utterance == old(self).utterance,
                self.last_asr_samples == old(self).last_asr_samples,
            decreases audio@.len() - j,
        {
            self.stash.push(audio[j]);
            proof {
                assert(self.stash@ =~= old(self).stash@ + audio@.take(j + 1));
            }
            j += 1;
        }
        let ghost buf = old(self).pending_view() + audio@;
        proof {
            assert(audio@.take(audio@.len() as int) =~= audio@);
            assert(self.stash@ =~= old(self).stash@ + audio@);
            assert(self.stash@.skip(base) =~= buf);
            assert(self.params() =~= p);
            assert(self.model() =~= m0);
        }
        let ghost frames = frames_of(buf, p.frame_size);
        let fsz = self.frame_size;
        let mut events: Vec<StreamingEvent> = Vec::new();
        let ghost mut k: int = 0;
        proof {
            assert(frames.take(0) =~= Seq::<Seq<i16>>::empty());
            assert(events_view(events@) =~= Seq::<EventModel>::empty());
            assert(run_spec(p, m0, frames.take(0)) == (m0, Seq::<EventModel>::empty()));
        }
        while self.stash.len() - self.stash_pos >= self.frame_size
            invariant
                params_ok(p),
                self.params() == p,
                self.cfg == old(self).cfg,
                fsz == p.frame_size,
                self.stash@ == old(self).stash@ + audio@,
                base == old(self).stash_pos,
                buf == old(self).pending_view() + audio@,
                buf == self.stash@.skip(base),
                frames == frames_of(buf, p.frame_size),
                0 <= k,
                k * p.frame_size + base == self.stash_pos,
                self.stash_pos <= self.stash@.len(),
                k <= frames.len(),
                seg_inv(p, self.model()),
                run_spec(p, m0, frames.take(k)) == (self.model(), events_view(events@)),
            decreases self.stash@.len() - self.stash_pos,
        {
            proof {
                assert((k + 1) * p.frame_size <= buf.len() ==> k + 1 <= buf.len() as int
                    / p.frame_size) by (nonlinear_arith)
                    requires
                        p.frame_size >= 1,
                ;
                assert((k + 1) * p.frame_size == k * p.frame_size + p.frame_size)
                    by (nonlinear_arith);
            }
            let start = self.stash_pos;
            let end = start + fsz;
            let mut frame: Vec<i16> = Vec::new();
            let mut t: usize = 0;
            while t < fsz
                invariant
                    t <= fsz,
                    start + fsz <= self.stash.len(),
                    frame@ =~= self.stash@.subrange(start as int, start + t),
                decreases fsz - t,
            {
                frame.push(self.stash[start + t]);
                proof {
                    assert(frame@ =~= self.stash@.subrange(start as int, start + t + 1));
                }
                t += 1;
            }
            proof {
                assert(frame@ =~= buf.subrange(k * p.frame_size, (k + 1) * p.frame_size));
                assert(frames[k] == buf.subrange(k * p.frame_size, (k + 1) * p.frame_size));
                assert(frame@.len() == p.frame_size);
            }
            self.stash_pos = end;
            let voiced = frame_voiced(&frame, self.cfg.vad_threshold);
            let ghost st_pre = self.model();
            let ghost step_r = step_spec(p, st_pre, frame@);
            let ghost events_pre = events@;
            if self.in_speech {
                let mut q: usize = 0;
                while q < fsz
                    invariant
                        q <= fsz,
                        fsz == frame@.len(),
                        self.utterance@ =~= st_pre.utterance + frame@.take(q as int),
                        self.in_speech == st_pre.in_speech,
                        self.silent_frames == st_pre.silent_frames,
                        self.pre_roll@ == st_pre.pre_roll,
                        self.last_asr_samples == st_pre.last_asr,
                        self.cfg == old(self).cfg,
                        self.frame_size == fsz,
                        self.params() == p,
                        params_ok(p),
                        seg_inv(p, st_pre),
                        self.stash@ == old(self).stash@ + audio@,
                        self.stash_pos == end,
                    decreases fsz - q,
                {
                    self.utterance.push(frame[q]);
                    proof {
                        assert(self.utterance@ =~= st_pre.utterance + frame@.take(q + 1));
                    }
                    q += 1;
                }
                proof {
                    assert(frame@.take(frame@.len() as int) =~= frame@);
                    assert(self.utterance@ =~= st_pre.utterance + frame@);
                }
                if voiced {
                    self.silent_frames = 0;
                } else {
                    self.silent_frames = self.silent_frames + 1;
                }
                let reached_silence = self.silent_frames >= self.end_silence_frames;
                let reached_max = self.utterance.len() >= self.max_segment_samples;
                if reached_silence || reached_max {
                    if self.utterance.len() >= self.min_speech_samples {
                        let seg = self.flush_utterance();
                        events.push(StreamingEvent::Final(seg));
                    } else {
                        self.reset_state();
                        events.push(StreamingEvent::Reset);
                    }
                } else if self.utterance.len() >= self.min_speech_samples && self.utterance.len()
                    - self.last_asr_samples >= self.asr_step_samples {
                    self.last_asr_samples = self.utterance.len();
                    let w = self.window_audio();
                    events.push(StreamingEvent::Partial(w));
                }
            } else {
                push_pre_roll(&mut self.pre_roll, self.pre_roll_samples, &frame);
                if voiced {
                    self.in_speech = true;
                    self.silent_frames = 0;
                    self.last_asr_samples = 0;
                    let ghost moved = self.pre_roll@;
                    while self.pre_roll.len() > 0
                        invariant
                            self.utterance@ + self.pre_roll@ =~= moved,
                            self.in_speech,
                            self.silent_frames == 0,
                            self.last_asr_samples == 0,
                            self.cfg == old(self).cfg,
                            self.frame_size == fsz,
                            self.params() == p,
                            self.stash@ == old(self).stash@ + audio@,
                            self.stash_pos == end,
                        decreases self.pre_roll@.len(),
                    {
                        let ghost pr_before = self.pre_roll@;
                        let s = self.pre_roll.pop_front().unwrap();
                        self.utterance.push(s);
                        proof {
                            assert(self.pre_roll@ =~= pr_before.subrange(
                                1,
                                pr_before.len() as int,
                            ));
                            assert(self.utterance@ + self.pre_roll@ =~= moved);
                        }
                    }
                    proof {
                        assert(self.utterance@ =~= moved);
                        assert(self.pre_roll@ =~= Seq::<i16>::empty());
                    }
                }
            }
            proof {
                assert(self.model() =~= step_r.0);
                assert(events_view(events@) =~= events_view(events_pre) + step_r.1);
                lemma_run_snoc(p, m0, frames.take(k), frames[k]);
                assert(frames.take(k).push(frames[k]) =~= frames.take(k + 1));
                lemma_step_preserves_inv(p, st_pre, frame@);
                k = k + 1;
            }
        }
        proof {
            assert(k == buf.len() as int / p.frame_size) by (nonlinear_arith)
                requires
                    p.frame_size >= 1,
                    0 <= k,
                    k * p.frame_size <= buf.len(),
                    buf.len() - k * p.frame_size < p.frame_size,
            ;
            assert(frames.take(k) =~= frames);
            assert(self.pending_view() =~= buf.skip(frames.len() * p.frame_size));
        }
        let ghost pending_after = self.pending_view();
        if self.stash_pos > self.frame_size * 128 {
            let mut rest: Vec<i16> = Vec::new();
            let mut t = self.stash_pos;
            while t < self.stash.len()
                invariant
                    self.stash_pos <= t <= self.stash@.len(),
                    rest@ =~= self.stash@.subrange(self.stash_pos as int, t as int),
                decreases self.stash@.len() - t,
            {
                rest.push(self.stash[t]);
                proof {
                    assert(rest@ =~= self.stash@.subrange(self.stash_pos as int, t + 1));
                }
                t += 1;
            }
            proof {
                assert(rest@ =~= self.pending_view());
            }
            self.stash = rest;
            self.stash_pos = 0;
            proof {
                assert(self.pending_view() =~= pending_after);
            }
        }
        proof {
            let r = run_spec(p, m0, frames);
            assert(final(self).model() == r.0);
            assert(events_view(events@) == r.1);
            lemma_run_partials_bounded(p, m0, frames);
            assert forall|i: int|
                0 <= i < events@.len() implies (#[trigger] events@[i]@ matches
                EventModel::Partial(pl) ==> pl.len() <= p.max_window_samples) by {
                assert(events_view(events@)[i] == events@[i]@);
            }
        }
        events
    }

    /// Samples per 20 ms frame.
    pub fn frame_size(&self) -> (r: usize)
        ensures
            r as int == self.params().frame_size,
    {
        self.frame_size
    }

    /// The sliding-window length for partial payloads, in samples.
    pub fn max_window_samples(&self) -> (r: usize)
        ensures
            r as int == self.params().max_window_samples,
    {
        self.max_window_samples
    }

    /// The hard cap on utterance length, in samples.
    pub fn max_segment_samples(&self) -> (r: usize)
        ensures
            r as int == self.params().max_segment_samples,
    {
        self.max_segment_samples
    }

    /// The minimum utterance length for partials and finals, in samples.
    pub fn min_speech_samples(&self) -> (r: usize)
        ensures
            r as int == self.params().min_speech_samples,
    {
        self.min_speech_samples
    }

    /// The pre-roll ring capacity, in samples.
    pub fn pre_roll_samples(&self) -> (r: usize)
        ensures
            r as int == self.params().pre_roll_samples,
    {
        self.pre_roll_samples
    }

    /// Whether an utterance is in progress.
    pub fn in_speech(&self) -> (r: bool)
        ensures
            r == self.model().in_speech,
    {
        self.in_speech
    }

    /// How many samples the pre-roll ring currently holds; well-formedness
    /// keeps this at or below the capacity at every observation point.
    pub fn pre_roll_len(&self) -> (r: usize)
        ensures
            r == self.model().pre_roll.len(),
            self.wf() ==> r as int <= self.params().pre_roll_samples,
    {
        self.pre_roll.len()
    }

    fn window_audio(&self) -> (r: Vec<i16>)
        ensures
            r@ == window_spec(self.utterance@, self.max_window_samples as int),
    {
        let len = self.utterance.len();
        let keep = if self.max_window_samples < len {
            self.max_window_samples
        } else {
            len
        };
        let start = len - keep;
        let mut r: Vec<i16> = Vec::new();
        let mut t = start;
        while t < len
            invariant
                start <= t <= len,
                len == self.utterance@.len(),
                r@ =~= self.utterance@.subrange(start as int, t as int),
            decreases len - t,
        {
            r.push(self.utterance[t]);
            proof {
                assert(r@ =~= self.utterance@.subrange(start as int, t + 1));
            }
            t += 1;
        }
        proof {
            assert(self.utterance@.subrange(start as int, len as int) =~= window_spec(
                self.utterance@,
                self.max_window_samples as int,
            ));
        }
        r
    }

    fn flush_utterance(&mut self) -> (r: Vec<i16>)
        ensures
            r@ == old(self).utterance@,
            final(self).cfg == old(self).cfg,
            final(self).params() == old(self).params(),
            final(self).stash == old(self).stash,
            final(self).stash_pos == old(self).stash_pos,
            final(self).model() == reset_model(),
    {
        self.in_speech = false;
        self.silent_frames = 0;
        self.pre_roll.clear();
        self.last_asr_samples = 0;
        let mut r: Vec<i16> = Vec::new();
        std::mem::swap(&mut r, &mut self.utterance);
        proof {
            assert(final(self).model() =~= reset_model());
        }
        r
    }

    fn reset_state(&mut self)
        ensures
            final(self).cfg == old(self).cfg,
            final(self).params() == old(self).params(),
            final(self).stash == old(self).stash,
            final(self).stash_pos == old(self).stash_pos,
            final(self).model() == reset_model(),
    {
        self.in_speech = false;
        self.silent_frames = 0;
        self.pre_roll.clear();
        self.last_asr_samples = 0;
        self.utterance.clear();
        proof {
            assert(final(self).model() =~= reset_model());
        }
    }
}

} // verus!
