//! The stabilizer: folds a stream of overlapping, self-overwriting speech
//! hypotheses into a monotonically growing committed token prefix and a
//! small volatile pending tail.
//!
//! A pending token is committed once it has appeared at the same pending
//! position in at least `stable_required` consecutive hypotheses.

use vstd::prelude::*;

use crate::text::{
    join_spec, lcp_len, lcp_spec, strip_committed_overlap, strip_overlap_spec, tokenize,
    tokenize_spec, tokens_to_text,
};

verus! {

/// The appearance counts after a new hypothesis: positions inside the common
/// prefix with the previous pending tail are incremented, the rest start
/// over at one.
pub open spec fn new_counts_spec(old_counts: Seq<int>, lcp: nat, m: nat) -> Seq<int> {
    Seq::new(m as nat, |i: int| if i < lcp { old_counts[i] + 1 } else { 1int })
}

/// How many leading pending tokens have reached the stability requirement.
pub open spec fn commit_len_spec(counts: Seq<int>, req: int) -> nat
    decreases counts.len(),
{
    if counts.len() == 0 || counts[0] < req {
        0
    } else {
        1 + commit_len_spec(counts.drop_first(), req)
    }
}

/// Only tokens whose count reached `req` are committed, and the commit stops
/// at the first token below the threshold.
pub proof fn lemma_commit_len_props(counts: Seq<int>, req: int)
    ensures
        commit_len_spec(counts, req) <= counts.len(),
        forall|j: int|
            0 <= j < commit_len_spec(counts, req) ==> #[trigger] counts[j] >= req,
        commit_len_spec(counts, req) < counts.len() ==> counts[commit_len_spec(counts, req) as int]
            < req,
    decreases counts.len(),
{
    if counts.len() == 0 || counts[0] < req {
    } else {
        lemma_commit_len_props(counts.drop_first(), req);
        assert forall|j: int| 0 <= j < commit_len_spec(counts, req) implies #[trigger] counts[j]
            >= req by {
            if j > 0 {
                assert(counts.drop_first()[j - 1] == counts[j]);
            }
        }
    }
}

proof fn lemma_commit_len_from_pointwise(counts: Seq<int>, req: int, n: nat)
    requires
        n <= counts.len(),
        forall|j: int| 0 <= j < n ==> #[trigger] counts[j] >= req,
        n == counts.len() || counts[n as int] < req,
    ensures
        n == commit_len_spec(counts, req),
    decreases n,
{
    if n == 0 {
    } else {
        assert(counts[0] >= req);
        let c1 = counts.drop_first();
        assert(forall|j: int| 0 <= j < n - 1 ==> #[trigger] c1[j] >= req);
        lemma_commit_len_from_pointwise(c1, req, (n - 1) as nat);
    }
}

/// Prefix-of composes, so the committed sequence observed after any number
/// of `update` calls extends the one observed after any earlier call.
pub proof fn lemma_prefix_transitive(a: Seq<Seq<char>>, b: Seq<Seq<char>>, c: Seq<Seq<char>>)
    requires
        a.is_prefix_of(b),
        b.is_prefix_of(c),
    ensures
        a.is_prefix_of(c),
{
    assert(a =~= c.subrange(0, a.len() as int));
}

fn clone_suffix(v: &Vec<String>, from: usize) -> (r: Vec<String>)
    requires
        from <= v.len(),
    ensures
        r.deep_view() == v.deep_view().skip(from as int),
{
    let mut r: Vec<String> = Vec::new();
    let mut idx = from;
    proof {
        assert(r.deep_view() =~= v.deep_view().subrange(from as int, from as int));
    }
    while idx < v.len()
        invariant
            from <= idx <= v.len(),
            r.deep_view() =~= v.deep_view().subrange(from as int, idx as int),
        decreases v.len() - idx,
    {
        let ghost dv0 = r.deep_view();
        r.push(v[idx].clone());
        proof {
            assert(r.deep_view() =~= dv0.push(v.deep_view()[idx as int]));
            assert(r.deep_view() =~= v.deep_view().subrange(from as int, idx + 1));
        }
        idx += 1;
    }
    proof {
        assert(v.deep_view().subrange(from as int, v.len() as int) =~= v.deep_view().skip(
            from as int,
        ));
    }
    r
}

fn counts_suffix(v: &Vec<usize>, from: usize) -> (r: Vec<usize>)
    requires
        from <= v.len(),
    ensures
        r@ == v@.skip(from as int),
{
    let mut r: Vec<usize> = Vec::new();
    let mut idx = from;
    while idx < v.len()
        invariant
            from <= idx <= v.len(),
            r@ =~= v@.subrange(from as int, idx as int),
        decreases v.len() - idx,
    {
        r.push(v[idx]);
        proof {
            assert(r@ =~= v@.subrange(from as int, idx + 1));
        }
        idx += 1;
    }
    proof {
        assert(v@.subrange(from as int, v.len() as int) =~= v@.skip(from as int));
    }
    r
}

/// Converts a sequence of overlapping hypotheses into a committed prefix and
/// a pending tail.
pub struct Stabilizer {
    stable_required: usize,
    committed: Vec<String>,
    pending_prev: Vec<String>,
    pending_counts: Vec<usize>,
}

impl Stabilizer {
    /// The committed tokens.
    pub closed spec fn committed_view(self) -> Seq<Seq<char>> {
        self.committed.deep_view()
    }

    /// The pending tokens of the most recent hypothesis.
    pub closed spec fn pending_view(self) -> Seq<Seq<char>> {
        self.pending_prev.deep_view()
    }

    /// How many consecutive hypotheses each pending token has survived.
    pub closed spec fn counts_view(self) -> Seq<int> {
        self.pending_counts@.map_values(|c: usize| c as int)
    }

    /// The stability requirement (at least one).
    pub closed spec fn required(self) -> int {
        self.stable_required as int
    }

    /// Structural invariant: counts and pending tokens pair up, every count
    /// is positive and below the stability requirement (a token that reached
    /// it was committed), and counts never increase along the tail.
    pub closed spec fn wf(self) -> bool {
        &&& self.stable_required >= 1
        &&& self.pending_counts@.len() == self.pending_prev@.len()
        &&& forall|i: int|
            0 <= i < self.counts_view().len() ==> 1 <= #[trigger] self.counts_view()[i]
                < self.required()
        &&& forall|i: int, j: int|
            0 <= i <= j < self.counts_view().len() ==> #[trigger] self.counts_view()[i]
                >= #[trigger] self.counts_view()[j]
    }

    /// What well-formedness guarantees, for callers that build on the
    /// stabilizer: the requirement is at least one, every pending token
    /// carries a count, every count is positive and strictly below the
    /// requirement (a token that reached it was committed), and counts
    /// never increase along the tail.
    pub proof fn lemma_wf_implies(&self)
        requires
            self.wf(),
        ensures
            self.required() >= 1,
            self.counts_view().len() == self.pending_view().len(),
            forall|i: int|
                0 <= i < self.counts_view().len() ==> 1 <= #[trigger] self.counts_view()[i]
                    < self.required(),
            forall|i: int, j: int|
                0 <= i <= j < self.counts_view().len() ==> #[trigger] self.counts_view()[i]
                    >= #[trigger] self.counts_view()[j],
    {
    }

    /// A fresh stabilizer; a requirement of zero is clamped to one.
    pub fn new(stable_required: usize) -> (r: Stabilizer)
        ensures
            r.wf(),
            r.required() == if stable_required == 0 {
                1int
            } else {
                stable_required as int
            },
            r.committed_view() == Seq::<Seq<char>>::empty(),
            r.pending_view() == Seq::<Seq<char>>::empty(),
            r.counts_view() == Seq::<int>::empty(),
    {
        let r = Stabilizer {
            stable_required: if stable_required == 0 {
                1
            } else {
                stable_required
            },
            committed: Vec::new(),
            pending_prev: Vec::new(),
            pending_counts: Vec::new(),
        };
        proof {
            assert(r.committed_view() =~= Seq::<Seq<char>>::empty());
            assert(r.pending_view() =~= Seq::<Seq<char>>::empty());
            assert(r.counts_view() =~= Seq::<int>::empty());
        }
        r
    }

    /// Discard all committed and pending state.
    pub fn reset(&mut self)
        ensures
            final(self).required() == old(self).required(),
            final(self).committed_view() == Seq::<Seq<char>>::empty(),
            final(self).pending_view() == Seq::<Seq<char>>::empty(),
            final(self).counts_view() == Seq::<int>::empty(),
            old(self).wf() ==> final(self).wf(),
    {
        self.committed.clear();
        self.pending_prev.clear();
        self.pending_counts.clear();
        proof {
            assert(self.committed_view() =~= Seq::<Seq<char>>::empty());
            assert(self.pending_view() =~= Seq::<Seq<char>>::empty());
            assert(self.counts_view() =~= Seq::<int>::empty());
        }
    }

    /// Fold one hypothesis into the state and return the joined committed
    /// and pending texts.
    ///
    /// The longest duplicate of a committed suffix is stripped from the
    /// front of the hypothesis, appearance counts advance along the common
    /// prefix with the previous pending tail and restart at one elsewhere,
    /// and the longest pending prefix whose counts all reached the
    /// stability requirement moves to the committed tokens. A hypothesis
    /// with no tokens stores the empty remainder like any other, clearing
    /// the pending tail: appearances only count while they are consecutive.
    pub fn update(&mut self, hypothesis: &str) -> (r: (String, String))
        requires
            old(self).wf(),
        ensures
            final(self).wf(),
            final(self).required() == old(self).required(),
            old(self).committed_view().is_prefix_of(final(self).committed_view()),
            r.0@ == join_spec(final(self).committed_view()),
            r.1@ == join_spec(final(self).pending_view()),
            ({
                let toks = tokenize_spec(hypothesis@);
                let pend = strip_overlap_spec(old(self).committed_view(), toks);
                let lcp = lcp_spec(old(self).pending_view(), pend);
                let counts = new_counts_spec(old(self).counts_view(), lcp, pend.len());
                let cl = commit_len_spec(counts, old(self).required());
                &&& final(self).committed_view() == old(self).committed_view() + pend.take(
                    cl as int,
                )
                &&& final(self).pending_view() == pend.skip(cl as int)
                &&& final(self).counts_view() == counts.skip(cl as int)
            }),
    {
        let ghost old_committed = old(self).committed_view();
        let tokens = tokenize(hypothesis);
        let pending0 = strip_committed_overlap(&self.committed, &tokens);
        let lcp = lcp_len(&self.pending_prev, &pending0);
        let req = self.stable_required;
        let ghost counts_spec = new_counts_spec(
            old(self).counts_view(),
            lcp as nat,
            pending0.deep_view().len(),
        );

        let mut counts: Vec<usize> = Vec::new();
        let mut i: usize = 0;
        while i < pending0.len()
            invariant
                *self == *old(self),
                old(self).wf(),
                req == self.stable_required,
                i <= pending0.len(),
                lcp <= self.pending_counts.len(),
                lcp <= pending0.len(),
                counts_spec == new_counts_spec(
                    old(self).counts_view(),
                    lcp as nat,
                    pending0.deep_view().len(),
                ),
                pending0.deep_view().len() == pending0.len(),
                counts@.len() == i,
                forall|j: int| 0 <= j < i ==> #[trigger] counts@[j] as int == counts_spec[j],
            decreases pending0.len() - i,
        {
            if i < lcp {
                let c = self.pending_counts[i];
                proof {
                    assert(self.counts_view()[i as int] == c as int);
                }
                counts.push(c + 1);
            } else {
                counts.push(1);
            }
            i += 1;
        }

        let mut cl: usize = 0;
        while cl < counts.len() && counts[cl] >= req
            invariant
                cl <= counts@.len(),
                counts@.len() == counts_spec.len(),
                forall|j: int| 0 <= j < counts@.len() ==> #[trigger] counts@[j] as int
                    == counts_spec[j],
                forall|j: int| 0 <= j < cl ==> #[trigger] counts_spec[j] >= req as int,
            decreases counts.len() - cl,
        {
            cl += 1;
        }
        proof {
            lemma_commit_len_from_pointwise(counts_spec, req as int, cl as nat);
        }

        let mut t: usize = 0;
        while t < cl
            invariant
                t <= cl,
                cl <= pending0.len(),
                pending0.deep_view().len() == pending0.len(),
                self.committed.deep_view() =~= old_committed + pending0.deep_view().take(
                    t as int,
                ),
                self.pending_prev == old(self).pending_prev,
                self.pending_counts == old(self).pending_counts,
                self.stable_required == old(self).stable_required,
            decreases cl - t,
        {
            let ghost dv0 = self.committed.deep_view();
            self.committed.push(pending0[t].clone());
            proof {
                assert(self.committed.deep_view() =~= dv0.push(pending0.deep_view()[t as int]));
                assert(self.committed.deep_view() =~= old_committed + pending0.deep_view().take(
                    t + 1,
                ));
            }
            t += 1;
        }

        self.pending_prev = clone_suffix(&pending0, cl);
        self.pending_counts = counts_suffix(&counts, cl);

        let ctext = tokens_to_text(&self.committed);
        let ptext = tokens_to_text(&self.pending_prev);

        proof {
            let pend = pending0.deep_view();
            let oc = old(self).counts_view();
            let creq = req as int;
            assert(self.counts_view() =~= counts_spec.skip(cl as int));
            lemma_commit_len_props(counts_spec, creq);
            // counts never increase along the new tail
            assert forall|a: int, b: int|
                0 <= a <= b < counts_spec.len() implies #[trigger] counts_spec[a]
                >= #[trigger] counts_spec[b] by {
                if b < lcp {
                    assert(oc[a] >= oc[b]);
                } else if a >= lcp {
                } else {
                    assert(counts_spec[a] == oc[a] + 1);
                    assert(oc[a] >= 1);
                }
            }
            // every kept count is positive and below the requirement
            assert forall|j: int|
                0 <= j < self.counts_view().len() implies 1 <= #[trigger] self.counts_view()[j]
                < self.required() by {
                assert(self.counts_view()[j] == counts_spec[cl + j]);
                if cl + j < lcp {
                    assert(oc[cl + j] >= 1);
                }
                if cl < counts_spec.len() {
                    assert(counts_spec[cl as int] < creq);
                    assert(counts_spec[cl + j] <= counts_spec[cl as int]);
                }
            }
            assert(old_committed.is_prefix_of(self.committed_view())) by {
                assert(old_committed =~= self.committed_view().subrange(
                    0,
                    old_committed.len() as int,
                ));
            }
        }
        (ctext, ptext)
    }

    /// The stability requirement in effect.
    pub fn stable_required(&self) -> (r: usize)
        ensures
            r as int == self.required(),
    {
        self.stable_required
    }

    /// How many consecutive hypotheses each pending token has survived.
    pub fn pending_counts(&self) -> (r: &Vec<usize>)
        ensures
            r@.len() == self.counts_view().len(),
            forall|i: int| 0 <= i < r@.len() ==> #[trigger] r@[i] as int == self.counts_view()[i],
    {
        &self.pending_counts
    }

    /// The authoritative text for a closed utterance: the hypothesis,
    /// re-joined, with all partial state discarded afterwards.
    pub fn finalize(&mut self, hypothesis: &str) -> (r: String)
        ensures
            r@ == join_spec(tokenize_spec(hypothesis@)),
            final(self).required() == old(self).required(),
            final(self).committed_view() == Seq::<Seq<char>>::empty(),
            final(self).pending_view() == Seq::<Seq<char>>::empty(),
            final(self).counts_view() == Seq::<int>::empty(),
            old(self).wf() ==> final(self).wf(),
    {
        let tokens = tokenize(hypothesis);
        let text = tokens_to_text(&tokens);
        self.reset();
        text
    }
}

} // verus!
