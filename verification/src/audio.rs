//! The final-only segmenter: segments audio into whole utterances without
//! emitting partial events, as used when streaming partials are disabled.
//!
//! It runs the same frame-level segmentation as the streaming segmenter,
//! with the minimum speech length at one sample (every termination yields a
//! segment) and the partial step pushed past the segment cap (no partial
//! can ever be due).

use vstd::prelude::*;

use crate::segmenter::{
    frames_of, params_of, params_ok, reset_model, run_spec, seg_inv, step_spec, EventModel,
    SegModel, SegParams, StreamingConfig, StreamingEvent, StreamingSegmenter,
};

verus! {

/// Settings for the final-only segmenter, durations in milliseconds and the
/// voice threshold in PCM16 units.
#[derive(Clone, Copy, Debug)]
pub struct SegmenterConfig {
    /// Samples per second of the incoming audio.
    pub sample_rate_hz: u32,
    /// RMS threshold at or above which a frame counts as voiced.
    pub vad_threshold: u16,
    /// Silence tail that closes a segment.
    pub vad_end_silence_ms: u32,
    /// Hard cap on segment length before a forced flush.
    pub max_segment_ms: u32,
    /// Audio preserved from just before voice onset.
    pub pre_roll_ms: u32,
}

/// Bounds under which the derived counts are sane and the partial step can
/// be pushed past the segment cap; the segment cap must come to at least
/// one sample.
pub open spec fn valid_segmenter_config(cfg: SegmenterConfig) -> bool {
    &&& 1 <= cfg.sample_rate_hz <= 192_000
    &&& cfg.vad_end_silence_ms <= 3_599_000
    &&& 1 <= cfg.max_segment_ms <= 3_599_000
    &&& cfg.pre_roll_ms <= 3_599_000
    &&& cfg.max_segment_ms * cfg.sample_rate_hz >= 500
}

/// The streaming configuration a final-only segmenter runs with.
pub open spec fn streaming_config_of(cfg: SegmenterConfig) -> StreamingConfig {
    StreamingConfig {
        sample_rate_hz: cfg.sample_rate_hz,
        vad_threshold: cfg.vad_threshold,
        vad_end_silence_ms: cfg.vad_end_silence_ms,
        max_segment_ms: cfg.max_segment_ms,
        pre_roll_ms: cfg.pre_roll_ms,
        min_speech_ms: 0,
        asr_step_ms: (cfg.max_segment_ms + 1000) as u32,
        max_window_ms: 0,
    }
}

proof fn lemma_params_final_only(cfg: SegmenterConfig)
    requires
        valid_segmenter_config(cfg),
    ensures
        ({
            let p = params_of(streaming_config_of(cfg));
            p.min_speech_samples == 1 && p.asr_step_samples > p.max_segment_samples
        }),
{
    let rate = cfg.sample_rate_hz as int;
    let ms = cfg.max_segment_ms as int;
    assert((0 * rate + 500) / 1000 == 0);
    assert(ms * rate + 500 >= 1000);
    assert((ms * rate + 500) / 1000 >= 1) by (nonlinear_arith)
        requires
            ms * rate + 500 >= 1000,
    ;
    assert(((ms + 1000) * rate + 500) / 1000 == (ms * rate + 500) / 1000 + rate)
        by (nonlinear_arith)
        requires
            rate >= 1,
            ms >= 0,
    ;
}

/// A segmenter that yields only whole segments, never partials.
pub struct Segmenter {
    inner: StreamingSegmenter,
}

fn copy_samples(v: &Vec<i16>) -> (r: Vec<i16>)
    ensures
        r@ == v@,
{
    let mut r: Vec<i16> = Vec::new();
    let mut i: usize = 0;
    while i < v.len()
        invariant
            i <= v@.len(),
            r@ =~= v@.take(i as int),
        decreases v@.len() - i,
    {
        r.push(v[i]);
        i += 1;
    }
    proof {
        assert(v@.take(v@.len() as int) =~= v@);
    }
    r
}

impl Segmenter {
    /// The derived constants of the underlying segmentation.
    pub closed spec fn params(self) -> SegParams {
        self.inner.params()
    }

    /// The voice-activity state of the underlying segmentation.
    pub closed spec fn model(self) -> SegModel {
        self.inner.model()
    }

    /// The samples stashed but not yet consumed as whole frames.
    pub closed spec fn pending_view(self) -> Seq<i16> {
        self.inner.pending_view()
    }

    /// Well-formedness: the underlying segmenter is well-formed and its
    /// parameters suppress partials.
    pub closed spec fn wf(self) -> bool {
        &&& self.inner.wf()
        &&& self.params().min_speech_samples == 1
        &&& self.params().asr_step_samples > self.params().max_segment_samples
    }

    /// A fresh final-only segmenter.
    pub fn new(cfg: SegmenterConfig) -> (r: Segmenter)
        requires
            valid_segmenter_config(cfg),
        ensures
            r.wf(),
            r.params() == params_of(streaming_config_of(cfg)),
            r.model() == reset_model(),
            r.pending_view() == Seq::<i16>::empty(),
    {
        proof {
            lemma_params_final_only(cfg);
        }
        let scfg = StreamingConfig {
            sample_rate_hz: cfg.sample_rate_hz,
            vad_threshold: cfg.vad_threshold,
            vad_end_silence_ms: cfg.vad_end_silence_ms,
            max_segment_ms: cfg.max_segment_ms,
            pre_roll_ms: cfg.pre_roll_ms,
            min_speech_ms: 0,
            asr_step_ms: cfg.max_segment_ms + 1000,
            max_window_ms: 0,
        };
        Segmenter { inner: StreamingSegmenter::new(scfg) }
    }

    /// Feed audio and collect the whole segments it closes.
    ///
    /// The underlying run emits one `Final` per closed segment and nothing
    /// else; the result is exactly those payloads, in order.
    pub fn push_audio(&mut self, audio: &[i16]) -> (segments: Vec<Vec<i16>>)
        requires
            old(self).wf(),
        ensures
            final(self).wf(),
            final(self).params() == old(self).params(),
            ({
                let frames = frames_of(
                    old(self).pending_view() + audio@,
                    old(self).params().frame_size,
                );
                let r = run_spec(old(self).params(), old(self).model(), frames);
                &&& final(self).model() == r.0
                &&& final(self).pending_view() == (old(self).pending_view() + audio@).skip(
                    frames.len() * old(self).params().frame_size,
                )
                &&& r.1.len() == segments.deep_view().len()
                &&& forall|i: int|
                    0 <= i < r.1.len() ==> r.1[i] == EventModel::Final(
                        #[trigger] segments.deep_view()[i],
                    )
            }),
    {
        let ghost p = old(self).params();
        let ghost m0 = old(self).model();
        let ghost frames = frames_of(old(self).pending_view() + audio@, p.frame_size);
        proof {
            old(self).inner.lemma_wf_implies();
        }
        let events = self.inner.push_audio(audio);
        proof {
            crate::segmenter::lemma_frames_of_wf(old(self).pending_view() + audio@, p.frame_size);
            crate::segmenter::lemma_run_only_finals(p, m0, frames);
        }
        let ghost evs = crate::segmenter::events_view(events@);
        let mut segments: Vec<Vec<i16>> = Vec::new();
        let mut i: usize = 0;
        proof {
            assert(segments.deep_view() =~= Seq::<Seq<i16>>::empty());
        }
        while i < events.len()
            invariant
                i <= events@.len(),
                evs == crate::segmenter::events_view(events@),
                forall|j: int| 0 <= j < evs.len() ==> #[trigger] evs[j] is Final,
                segments.deep_view().len() == i,
                forall|j: int|
                    0 <= j < i ==> evs[j] == EventModel::Final(
                        #[trigger] segments.deep_view()[j],
                    ),
            decreases events@.len() - i,
        {
            let ghost segs0 = segments.deep_view();
            match &events[i] {
                StreamingEvent::Final(v) => {
                    let seg = copy_samples(v);
                    segments.push(seg);
                    proof {
                        assert(segments.deep_view().last() =~= v@);
                        assert(segments.deep_view() =~= segs0.push(
                            segments.deep_view().last(),
                        ));
                        assert(evs[i as int] == EventModel::Final(v@));
                    }
                },
                StreamingEvent::Partial(_) => {
                    proof {
                        assert(evs[i as int] is Final);
                        assert(false);
                    }
                },
                StreamingEvent::Reset => {
                    proof {
                        assert(evs[i as int] is Final);
                        assert(false);
                    }
                },
            }
            i += 1;
        }
        segments
    }
}

} // verus!
