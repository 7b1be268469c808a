use subtitles::segmenter::{StreamingConfig, StreamingEvent, StreamingSegmenter};

const RATE: u32 = 16_000;

// The PCM16 image of the default 0.012 RMS threshold.
const THR: u16 = 393;

// A comfortably voiced constant amplitude (0.05 in float terms).
const LOUD: i16 = 1638;

fn default_config() -> StreamingConfig {
    StreamingConfig {
        sample_rate_hz: RATE,
        vad_threshold: THR,
        vad_end_silence_ms: 600,
        max_segment_ms: 20_000,
        pre_roll_ms: 250,
        min_speech_ms: 300,
        asr_step_ms: 350,
        max_window_ms: 12_000,
    }
}

fn push_all(seg: &mut StreamingSegmenter, samples: &[i16], chunk: usize) -> Vec<StreamingEvent> {
    let mut events = Vec::new();
    let mut i = 0;
    while i < samples.len() {
        let end = (i + chunk).min(samples.len());
        events.extend(seg.push_audio(&samples[i..end]));
        i = end;
    }
    events
}

#[test]
fn silence_only_yields_no_events() {
    let mut seg = StreamingSegmenter::new(default_config());
    let silence = vec![0i16; 10 * RATE as usize];
    let events = push_all(&mut seg, &silence, 1600);
    assert_eq!(events.len(), 0);
}

#[test]
fn single_utterance_yields_partials_then_final() {
    let mut seg = StreamingSegmenter::new(default_config());
    let mut samples = vec![0i16; 3200];
    samples.extend(vec![LOUD; 24_000]);
    samples.extend(vec![0i16; 12_800]);

    let events = push_all(&mut seg, &samples, 1600);
    assert!(events.len() > 1);
    for ev in &events[..events.len() - 1] {
        assert!(matches!(ev, StreamingEvent::Partial(_)));
    }
    match events.last().unwrap() {
        StreamingEvent::Final(payload) => {
            // 1.5 s of speech, plus the pre-roll and the 600 ms silence tail.
            assert!(payload.len() >= 24_000);
            assert!(payload.len() <= 37_600);
            assert_eq!(payload.len(), 36_800);
        }
        other => panic!("expected a final, got {:?}", other),
    }
}

#[test]
fn short_blip_yields_exactly_one_reset() {
    // A silence tail of 180 ms closes the segment after nine frames, so a
    // 100 ms blip ends at 4480 samples, below the 300 ms minimum.
    let cfg = StreamingConfig {
        vad_end_silence_ms: 180,
        ..default_config()
    };
    let mut seg = StreamingSegmenter::new(cfg);
    let mut samples = vec![LOUD; 1600];
    samples.extend(vec![0i16; 16_000]);

    let events = push_all(&mut seg, &samples, 800);
    assert_eq!(events.len(), 1);
    assert!(matches!(events[0], StreamingEvent::Reset));
}

#[test]
fn max_segment_forces_a_flush_and_a_new_utterance_starts() {
    let mut seg = StreamingSegmenter::new(default_config());
    let samples = vec![LOUD; 25 * RATE as usize];
    let events = push_all(&mut seg, &samples, 1600);

    let mut final_positions = Vec::new();
    for (i, ev) in events.iter().enumerate() {
        if let StreamingEvent::Final(payload) = ev {
            final_positions.push(i);
            // The flush happens on the frame that reaches the cap.
            assert_eq!(payload.len(), 320_000);
        }
    }
    assert_eq!(final_positions.len(), 1);
    // The next voiced frame opens a new utterance whose partials follow.
    let after_final = &events[final_positions[0] + 1..];
    assert!(!after_final.is_empty());
    for ev in after_final {
        assert!(matches!(ev, StreamingEvent::Partial(_)));
    }
    assert!(seg.in_speech());
}

#[test]
fn partial_payloads_fit_the_window() {
    // A 1 s window over a long utterance: the window truncation must bite.
    let cfg = StreamingConfig {
        max_window_ms: 1000,
        ..default_config()
    };
    let mut seg = StreamingSegmenter::new(cfg);
    assert_eq!(seg.max_window_samples(), 16_000);
    let samples = vec![LOUD; 5 * RATE as usize];
    let events = push_all(&mut seg, &samples, 1600);
    let mut saw_full_window = false;
    let mut saw_partial = false;
    for ev in &events {
        if let StreamingEvent::Partial(payload) = ev {
            saw_partial = true;
            assert!(payload.len() <= 16_000);
            if payload.len() == 16_000 {
                saw_full_window = true;
            }
        }
    }
    assert!(saw_partial);
    assert!(saw_full_window);
}

#[test]
fn pre_roll_stays_within_its_capacity() {
    let mut seg = StreamingSegmenter::new(default_config());
    assert_eq!(seg.pre_roll_samples(), 4000);
    let silence = vec![0i16; 1600];
    for _ in 0..20 {
        seg.push_audio(&silence);
        assert!(seg.pre_roll_len() <= seg.pre_roll_samples());
    }
    // Quiet but non-zero audio keeps filling the ring without overflowing.
    let quiet = vec![5i16; 1600];
    for _ in 0..20 {
        seg.push_audio(&quiet);
        assert!(seg.pre_roll_len() <= seg.pre_roll_samples());
    }
}

#[test]
fn derived_counts_match_the_configuration() {
    let seg = StreamingSegmenter::new(default_config());
    assert_eq!(seg.frame_size(), 320);
    assert_eq!(seg.max_segment_samples(), 320_000);
    assert_eq!(seg.min_speech_samples(), 4800);
    assert_eq!(seg.pre_roll_samples(), 4000);
    assert_eq!(seg.max_window_samples(), 192_000);
}

#[test]
fn zero_window_means_full_segment() {
    let cfg = StreamingConfig {
        max_window_ms: 0,
        ..default_config()
    };
    let seg = StreamingSegmenter::new(cfg);
    assert_eq!(seg.max_window_samples(), seg.max_segment_samples());
}
