//! The transcription worker's decisions: feeding hypotheses through the
//! stabilizer, composing and de-duplicating caption updates, and coalescing
//! backlogs of partial events so only the newest audio is decoded.

use vstd::prelude::*;

use crate::segmenter::{events_view, EventModel, StreamingEvent};
use crate::stabilizer::Stabilizer;
use crate::text::{combine_spec, join_spec, tokenize_spec, trim_spec};

verus! {

/// A caption for the sink.
#[derive(Clone, Debug)]
pub enum CaptionEvent {
    /// New display text; final text comes from a closed utterance.
    Update { text: String, is_final: bool },
    /// Whatever is displayed should be cleared.
    Clear,
}

/// How many leading events of a backlog behind a partial are consumed:
/// every queued partial is superseded by the next event, and the first
/// final or reset stops the scan.
pub open spec fn coalesce_cut(backlog: Seq<EventModel>) -> int
    decreases backlog.len(),
{
    if backlog.len() == 0 {
        0
    } else if !(backlog[0] is Partial) {
        1
    } else {
        1 + coalesce_cut(backlog.drop_first())
    }
}

proof fn lemma_coalesce_cut_char(backlog: Seq<EventModel>, n: int)
    requires
        0 <= n <= backlog.len(),
        forall|j: int| 0 <= j < n ==> #[trigger] backlog[j] is Partial,
        n == backlog.len() || !(backlog[n] is Partial),
    ensures
        coalesce_cut(backlog) == if n == backlog.len() {
            n
        } else {
            n + 1
        },
    decreases n,
{
    if n == 0 {
    } else {
        assert(backlog[0] is Partial);
        let b1 = backlog.drop_first();
        assert(forall|j: int| 0 <= j < n - 1 ==> #[trigger] b1[j] is Partial);
        lemma_coalesce_cut_char(b1, n - 1);
    }
}

/// Pick the event to decode from the event just received and the backlog
/// drained behind it.
///
/// A non-partial is decoded as it is. For a partial, each queued partial
/// supersedes the one before it (its audio window is newer); the first
/// final or reset in the backlog takes over and stops the scan. The second
/// component is how many backlog events were consumed; the rest remain
/// queued.
pub fn coalesce_events(first: StreamingEvent, backlog: Vec<StreamingEvent>) -> (r: (
    StreamingEvent,
    usize,
))
    ensures
        ({
            let bl = events_view(backlog@);
            if !(first@ is Partial) {
                r.1 == 0 && r.0 == first
            } else {
                let cut = coalesce_cut(bl);
                r.1 == cut && (if cut == 0 {
                    r.0 == first
                } else {
                    r.0@ == bl[cut - 1]
                })
            }
        }),
{
    let ghost bl = events_view(backlog@);
    let is_partial = match &first {
        StreamingEvent::Partial(_) => true,
        _ => false,
    };
    if !is_partial {
        return (first, 0);
    }
    let mut n: usize = 0;
    let mut stopped = false;
    while !stopped && n < backlog.len()
        invariant
            n <= backlog@.len(),
            bl == events_view(backlog@),
            bl.len() == backlog@.len(),
            !stopped ==> forall|j: int| 0 <= j < n ==> #[trigger] bl[j] is Partial,
            !stopped ==> n < bl.len() || n == bl.len(),
            stopped ==> 1 <= n <= bl.len() && !(bl[n - 1] is Partial) && forall|j: int|
                0 <= j < n - 1 ==> #[trigger] bl[j] is Partial,
        decreases backlog@.len() - n, (if stopped {
            0int
        } else {
            1int
        }),
    {
        let keep_going = match &backlog[n] {
            StreamingEvent::Partial(_) => true,
            _ => false,
        };
        n += 1;
        if !keep_going {
            stopped = true;
        }
    }
    proof {
        if stopped {
            lemma_coalesce_cut_char(bl, n - 1);
        } else {
            lemma_coalesce_cut_char(bl, n as int);
        }
    }
    if n == 0 {
        (first, 0)
    } else {
        let mut backlog = backlog;
        let chosen = backlog.remove(n - 1);
        (chosen, n)
    }
}

/// The worker state carried across the events of a stream: the stabilizer
/// for the current utterance and the last caption that was sent.
pub struct TranscriptionWorker {
    stabilizer: Stabilizer,
    last_caption: String,
    last_final: bool,
}

impl TranscriptionWorker {
    /// The stabilizer's committed tokens.
    pub closed spec fn committed_view(self) -> Seq<Seq<char>> {
        self.stabilizer.committed_view()
    }

    /// The stabilizer's pending tokens.
    pub closed spec fn pending_view(self) -> Seq<Seq<char>> {
        self.stabilizer.pending_view()
    }

    /// The stabilizer's appearance counts.
    pub closed spec fn counts_view(self) -> Seq<int> {
        self.stabilizer.counts_view()
    }

    /// The stability requirement.
    pub closed spec fn required(self) -> int {
        self.stabilizer.required()
    }

    /// The text of the caption most recently sent.
    pub closed spec fn last_caption_view(self) -> Seq<char> {
        self.last_caption@
    }

    /// Whether the caption most recently sent was final.
    pub closed spec fn last_final_view(self) -> bool {
        self.last_final
    }

    /// Well-formedness of the underlying stabilizer.
    pub closed spec fn wf(self) -> bool {
        self.stabilizer.wf()
    }

    /// A fresh worker: empty stabilizer, no caption on display.
    pub fn new(stable_required: usize) -> (r: TranscriptionWorker)
        ensures
            r.wf(),
            r.required() == if stable_required == 0 {
                1int
            } else {
                stable_required as int
            },
            r.committed_view() == Seq::<Seq<char>>::empty(),
            r.pending_view() == Seq::<Seq<char>>::empty(),
            r.last_caption_view() == Seq::<char>::empty(),
            r.last_final_view() == true,
    {
        TranscriptionWorker {
            stabilizer: Stabilizer::new(stable_required),
            last_caption: String::new(),
            last_final: true,
        }
    }

    fn decide_update(&mut self, text: String, is_final: bool) -> (r: Option<CaptionEvent>)
        ensures
            final(self).stabilizer == old(self).stabilizer,
            ({
                if text@ == old(self).last_caption_view() && is_final == old(
                    self,
                ).last_final_view() {
                    &&& r is None
                    &&& final(self).last_caption_view() == old(self).last_caption_view()
                    &&& final(self).last_final_view() == old(self).last_final_view()
                } else {
                    &&& r matches Some(ev) && ev matches CaptionEvent::Update {
                        text: t,
                        is_final: f,
                    } && t@ == text@ && f == is_final
                    &&& final(self).last_caption_view() == text@
                    &&& final(self).last_final_view() == is_final
                }
            }),
    {
        let same = text == self.last_caption && is_final == self.last_final;
        if same {
            None
        } else {
            self.last_caption = text.clone();
            self.last_final = is_final;
            Some(CaptionEvent::Update { text, is_final })
        }
    }

    /// Handle the text the backend returned for a partial decode: fold it
    /// into the stabilizer, compose the display string from the committed
    /// and pending texts, and return a non-final update unless it repeats
    /// the caption already on display.
    pub fn on_partial_text(&mut self, hypothesis: &str) -> (r: Option<CaptionEvent>)
        requires
            old(self).wf(),
        ensures
            final(self).wf(),
            final(self).required() == old(self).required(),
            old(self).committed_view().is_prefix_of(final(self).committed_view()),
            ({
                let display = combine_spec(
                    join_spec(final(self).committed_view()),
                    join_spec(final(self).pending_view()),
                );
                if display == old(self).last_caption_view() && !old(self).last_final_view() {
                    r is None && final(self).last_caption_view() == old(self).last_caption_view()
                        && final(self).last_final_view() == old(self).last_final_view()
                } else {
                    (r matches Some(ev) && ev matches CaptionEvent::Update {
                        text: t,
                        is_final: f,
                    } && t@ == display && f == false) && final(self).last_caption_view() == display
                        && final(self).last_final_view() == false
                }
            }),
    {
        let (committed, pending) = self.stabilizer.update(hypothesis);
        let display = crate::text::combine_committed_partial(
            committed.as_str(),
            pending.as_str(),
        );
        self.decide_update(display, false)
    }

    /// Handle the text the backend returned for a final decode: the joined
    /// hypothesis is authoritative, partial state is discarded, and a final
    /// update is sent unless the text is blank or repeats the display.
    pub fn on_final_text(&mut self, hypothesis: &str) -> (r: Option<CaptionEvent>)
        requires
            old(self).wf(),
        ensures
            final(self).wf(),
            final(self).required() == old(self).required(),
            final(self).committed_view() == Seq::<Seq<char>>::empty(),
            final(self).pending_view() == Seq::<Seq<char>>::empty(),
            ({
                let text = join_spec(tokenize_spec(hypothesis@));
                if trim_spec(text).len() == 0 {
                    r is None && final(self).last_caption_view() == old(self).last_caption_view()
                        && final(self).last_final_view() == old(self).last_final_view()
                } else if text == old(self).last_caption_view() && old(self).last_final_view() {
                    r is None && final(self).last_caption_view() == old(self).last_caption_view()
                        && final(self).last_final_view() == old(self).last_final_view()
                } else {
                    (r matches Some(ev) && ev matches CaptionEvent::Update {
                        text: t,
                        is_final: f,
                    } && t@ == text && f == true) && final(self).last_caption_view() == text
                        && final(self).last_final_view() == true
                }
            }),
    {
        let text = self.stabilizer.finalize(hypothesis);
        let trimmed = crate::text::trim_ascii(text.as_str());
        if trimmed.as_str().is_empty() {
            None
        } else {
            self.decide_update(text, true)
        }
    }

    /// Handle an abandoned utterance: discard all stabilizer state and, if
    /// a caption is on display, ask the sink to clear it.
    pub fn on_reset(&mut self) -> (r: Option<CaptionEvent>)
        requires
            old(self).wf(),
        ensures
            final(self).wf(),
            final(self).required() == old(self).required(),
            final(self).committed_view() == Seq::<Seq<char>>::empty(),
            final(self).pending_view() == Seq::<Seq<char>>::empty(),
            final(self).last_caption_view() == Seq::<char>::empty(),
            ({
                if old(self).last_caption_view().len() == 0 {
                    r is None && final(self).last_final_view() == old(self).last_final_view()
                } else {
                    r matches Some(ev) && ev is Clear && final(self).last_final_view() == true
                }
            }),
    {
        self.stabilizer.reset();
        if self.last_caption.as_str().is_empty() {
            None
        } else {
            self.last_caption = String::new();
            self.last_final = true;
            Some(CaptionEvent::Clear)
        }
    }
}

} // verus!
