use subtitles::text::{
    combine_committed_partial, join_segments, lcp_len, strip_committed_overlap, tokenize,
    tokens_to_text, trim_ascii,
};

#[test]
fn tokenize_splits_on_ascii_whitespace() {
    assert_eq!(tokenize("a b\tc\nd"), vec!["a", "b", "c", "d"]);
    assert_eq!(tokenize("  leading  and   trailing  "), vec!["leading", "and", "trailing"]);
    assert_eq!(tokenize(""), Vec::<String>::new());
    assert_eq!(tokenize(" \t\r\n"), Vec::<String>::new());
}

#[test]
fn tokens_join_with_single_spaces() {
    let toks = vec!["one".to_string(), "two".to_string()];
    assert_eq!(tokens_to_text(&toks), "one two");
    assert_eq!(tokens_to_text(&Vec::new()), "");
    let single = vec!["only".to_string()];
    assert_eq!(tokens_to_text(&single), "only");
}

#[test]
fn tokenize_then_join_normalizes_whitespace() {
    let toks = tokenize("  a\t b  \n c ");
    assert_eq!(tokens_to_text(&toks), "a b c");
}

#[test]
fn lcp_counts_matching_prefix_tokens() {
    let a = vec!["x".to_string(), "y".to_string(), "z".to_string()];
    let b = vec!["x".to_string(), "y".to_string(), "q".to_string()];
    assert_eq!(lcp_len(&a, &b), 2);
    assert_eq!(lcp_len(&a, &a), 3);
    assert_eq!(lcp_len(&a, &Vec::new()), 0);
}

#[test]
fn overlap_strip_drops_the_longest_committed_suffix() {
    let committed = vec!["we".to_string(), "said".to_string(), "hello".to_string()];
    let tokens = vec!["said".to_string(), "hello".to_string(), "there".to_string()];
    assert_eq!(strip_committed_overlap(&committed, &tokens), vec!["there"]);

    let no_overlap = vec!["completely".to_string(), "new".to_string()];
    assert_eq!(
        strip_committed_overlap(&committed, &no_overlap),
        vec!["completely", "new"]
    );

    // The largest overlap wins even when a shorter one also matches.
    let committed2 = vec!["a".to_string(), "b".to_string(), "a".to_string()];
    let tokens2 = vec!["b".to_string(), "a".to_string(), "c".to_string()];
    assert_eq!(strip_committed_overlap(&committed2, &tokens2), vec!["c"]);
}

#[test]
fn trim_removes_ascii_whitespace_at_both_ends() {
    assert_eq!(trim_ascii("  padded \t"), "padded");
    assert_eq!(trim_ascii("inner  stays"), "inner  stays");
    assert_eq!(trim_ascii(" \r\n "), "");
}

#[test]
fn combine_elides_empty_components() {
    assert_eq!(combine_committed_partial("", ""), "");
    assert_eq!(combine_committed_partial(" done ", ""), "done");
    assert_eq!(combine_committed_partial("", " tail "), "tail");
    assert_eq!(combine_committed_partial("done ", " tail"), "done tail");
}

#[test]
fn segments_join_skipping_blanks() {
    let segs = vec![
        "  First part ".to_string(),
        "   ".to_string(),
        "second".to_string(),
        "".to_string(),
    ];
    assert_eq!(join_segments(&segs), "First part second");
    assert_eq!(join_segments(&Vec::new()), "");
}
