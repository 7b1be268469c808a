use subtitles::segmenter::StreamingEvent;
use subtitles::worker::{coalesce_events, CaptionEvent, TranscriptionWorker};

#[test]
fn partial_updates_compose_committed_and_pending() {
    let mut w = TranscriptionWorker::new(2);
    match w.on_partial_text("hello wor") {
        Some(CaptionEvent::Update { text, is_final }) => {
            assert_eq!(text, "hello wor");
            assert!(!is_final);
        }
        other => panic!("expected an update, got {:?}", other),
    }
    match w.on_partial_text("hello world") {
        Some(CaptionEvent::Update { text, is_final }) => {
            assert_eq!(text, "hello world");
            assert!(!is_final);
        }
        other => panic!("expected an update, got {:?}", other),
    }
}

#[test]
fn identical_display_is_not_resent() {
    let mut w = TranscriptionWorker::new(2);
    assert!(w.on_partial_text("steady text").is_some());
    assert!(w.on_partial_text("steady text").is_none());
}

#[test]
fn final_text_is_authoritative() {
    let mut w = TranscriptionWorker::new(2);
    w.on_partial_text("partial guess");
    match w.on_final_text("  the real   sentence ") {
        Some(CaptionEvent::Update { text, is_final }) => {
            assert_eq!(text, "the real sentence");
            assert!(is_final);
        }
        other => panic!("expected a final update, got {:?}", other),
    }
}

#[test]
fn blank_final_is_dropped() {
    let mut w = TranscriptionWorker::new(2);
    w.on_partial_text("something");
    assert!(w.on_final_text("   \t ").is_none());
}

#[test]
fn reset_clears_a_displayed_caption() {
    let mut w = TranscriptionWorker::new(2);
    w.on_partial_text("visible caption");
    match w.on_reset() {
        Some(CaptionEvent::Clear) => {}
        other => panic!("expected a clear, got {:?}", other),
    }
    // Nothing is displayed any more, so a second reset stays quiet.
    assert!(w.on_reset().is_none());
}

#[test]
fn reset_without_caption_is_silent() {
    let mut w = TranscriptionWorker::new(2);
    assert!(w.on_reset().is_none());
}

#[test]
fn queued_partials_coalesce_to_the_newest() {
    let first = StreamingEvent::Partial(vec![1i16, 1]);
    let backlog = vec![
        StreamingEvent::Partial(vec![2i16, 2]),
        StreamingEvent::Partial(vec![3i16, 3]),
    ];
    let (chosen, consumed) = coalesce_events(first, backlog);
    assert_eq!(consumed, 2);
    match chosen {
        StreamingEvent::Partial(audio) => assert_eq!(audio, vec![3i16, 3]),
        other => panic!("expected the newest partial, got {:?}", other),
    }
}

#[test]
fn a_final_in_the_backlog_stops_coalescing() {
    let first = StreamingEvent::Partial(vec![1i16]);
    let backlog = vec![
        StreamingEvent::Partial(vec![2i16]),
        StreamingEvent::Final(vec![9i16]),
        StreamingEvent::Partial(vec![4i16]),
    ];
    let (chosen, consumed) = coalesce_events(first, backlog);
    assert_eq!(consumed, 2);
    match chosen {
        StreamingEvent::Final(audio) => assert_eq!(audio, vec![9i16]),
        other => panic!("expected the final, got {:?}", other),
    }
}

#[test]
fn a_reset_in_the_backlog_takes_over() {
    let first = StreamingEvent::Partial(vec![1i16]);
    let backlog = vec![StreamingEvent::Reset];
    let (chosen, consumed) = coalesce_events(first, backlog);
    assert_eq!(consumed, 1);
    assert!(matches!(chosen, StreamingEvent::Reset));
}

#[test]
fn non_partial_events_are_processed_as_they_are() {
    let first = StreamingEvent::Final(vec![7i16]);
    let backlog = vec![StreamingEvent::Partial(vec![2i16])];
    let (chosen, consumed) = coalesce_events(first, backlog);
    assert_eq!(consumed, 0);
    match chosen {
        StreamingEvent::Final(audio) => assert_eq!(audio, vec![7i16]),
        other => panic!("expected the first event back, got {:?}", other),
    }
}

#[test]
fn empty_backlog_keeps_the_first_partial() {
    let first = StreamingEvent::Partial(vec![5i16, 5]);
    let (chosen, consumed) = coalesce_events(first, Vec::new());
    assert_eq!(consumed, 0);
    match chosen {
        StreamingEvent::Partial(audio) => assert_eq!(audio, vec![5i16, 5]),
        other => panic!("expected the first event back, got {:?}", other),
    }
}
