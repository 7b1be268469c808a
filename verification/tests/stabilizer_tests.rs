use subtitles::stabilizer::Stabilizer;

#[test]
fn convergence_over_growing_hypotheses() {
    let mut st = Stabilizer::new(2);

    let (c1, p1) = st.update("hello wor");
    assert_eq!(c1, "");
    assert_eq!(p1, "hello wor");

    let (c2, p2) = st.update("hello world");
    assert_eq!(c2, "hello");
    assert_eq!(p2, "world");

    let (c3, p3) = st.update("hello world today");
    assert_eq!(c3, "hello world");
    assert_eq!(p3, "today");
    assert_eq!(st.pending_counts().as_slice(), &[1usize]);
}

#[test]
fn committed_only_grows() {
    let mut st = Stabilizer::new(2);
    let hyps = ["a b", "a b c", "a b c d", "a b c d e"];
    let mut last_committed = String::new();
    for h in hyps {
        let (c, _) = st.update(h);
        assert!(c.starts_with(last_committed.as_str()));
        last_committed = c;
    }
}

#[test]
fn overlap_strip_never_duplicates_committed() {
    let mut st = Stabilizer::new(2);
    st.update("A");
    let (c, p) = st.update("A");
    assert_eq!(c, "A");
    assert_eq!(p, "");

    let (c3, p3) = st.update("A B C");
    assert_eq!(c3, "A");
    assert_eq!(p3, "B C");

    let (c4, p4) = st.update("B C D");
    assert_eq!(c4, "A B C");
    assert_eq!(p4, "D");
}

#[test]
fn below_threshold_token_is_not_committed() {
    let mut st = Stabilizer::new(3);
    let (c1, _) = st.update("alpha");
    let (c2, _) = st.update("alpha");
    assert_eq!(c1, "");
    assert_eq!(c2, "");
    let (c3, _) = st.update("alpha");
    assert_eq!(c3, "alpha");
}

#[test]
fn zero_requirement_clamps_to_one() {
    let mut st = Stabilizer::new(0);
    assert_eq!(st.stable_required(), 1);
    let (c, p) = st.update("quick commit");
    assert_eq!(c, "quick commit");
    assert_eq!(p, "");
}

#[test]
fn empty_hypothesis_breaks_the_streak() {
    let mut st = Stabilizer::new(2);
    st.update("one two");
    let (c, p) = st.update("");
    assert_eq!(c, "");
    assert_eq!(p, "");
    assert_eq!(st.pending_counts().len(), 0);
    // Appearances only count while consecutive: the tokens start over at
    // one and are not committed on their next appearance.
    let (c2, p2) = st.update("one two");
    assert_eq!(c2, "");
    assert_eq!(p2, "one two");
    let (c3, p3) = st.update("one two");
    assert_eq!(c3, "one two");
    assert_eq!(p3, "");
}

#[test]
fn finalize_returns_joined_text_and_resets() {
    let mut st = Stabilizer::new(2);
    st.update("some words here");
    let text = st.finalize("  the   final\ttranscript ");
    assert_eq!(text, "the final transcript");
    let (c, p) = st.update("fresh start");
    assert_eq!(c, "");
    assert_eq!(p, "fresh start");
    assert_eq!(st.pending_counts().len(), 2);
}

#[test]
fn reset_clears_everything() {
    let mut st = Stabilizer::new(1);
    st.update("a b c");
    st.reset();
    let (c, p) = st.update("x");
    assert_eq!(c, "x");
    assert_eq!(p, "");
}

#[test]
fn pending_counts_stay_below_requirement() {
    let mut st = Stabilizer::new(3);
    for h in ["a b", "a b", "a b c", "a c", "a b c d"] {
        st.update(h);
        for &count in st.pending_counts().iter() {
            assert!(count < 3);
        }
    }
}
