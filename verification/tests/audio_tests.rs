use subtitles::audio::{Segmenter, SegmenterConfig};

const LOUD: i16 = 1638;

fn config() -> SegmenterConfig {
    SegmenterConfig {
        sample_rate_hz: 16_000,
        vad_threshold: 393,
        vad_end_silence_ms: 600,
        max_segment_ms: 20_000,
        pre_roll_ms: 250,
    }
}

fn push_all(seg: &mut Segmenter, samples: &[i16], chunk: usize) -> Vec<Vec<i16>> {
    let mut segments = Vec::new();
    let mut i = 0;
    while i < samples.len() {
        let end = (i + chunk).min(samples.len());
        segments.extend(seg.push_audio(&samples[i..end]));
        i = end;
    }
    segments
}

#[test]
fn silence_yields_no_segments() {
    let mut seg = Segmenter::new(config());
    let silence = vec![0i16; 5 * 16_000];
    assert!(push_all(&mut seg, &silence, 1600).is_empty());
}

#[test]
fn one_utterance_yields_one_segment() {
    let mut seg = Segmenter::new(config());
    let mut samples = vec![0i16; 3200];
    samples.extend(vec![LOUD; 24_000]);
    samples.extend(vec![0i16; 12_800]);
    let segments = push_all(&mut seg, &samples, 1600);
    assert_eq!(segments.len(), 1);
    // The pre-roll, the speech, and the 600 ms silence tail.
    assert_eq!(segments[0].len(), 36_800);
}

#[test]
fn even_a_short_blip_becomes_a_segment() {
    // Unlike the streaming segmenter, the final-only segmenter has no
    // minimum speech length: every closed utterance is handed out.
    let mut seg = Segmenter::new(SegmenterConfig {
        vad_end_silence_ms: 180,
        ..config()
    });
    let mut samples = vec![LOUD; 1600];
    samples.extend(vec![0i16; 16_000]);
    let segments = push_all(&mut seg, &samples, 800);
    assert_eq!(segments.len(), 1);
    assert_eq!(segments[0].len(), 4480);
}

#[test]
fn the_segment_cap_splits_long_speech() {
    let mut seg = Segmenter::new(config());
    let samples = vec![LOUD; 25 * 16_000];
    let segments = push_all(&mut seg, &samples, 1600);
    assert_eq!(segments.len(), 1);
    assert_eq!(segments[0].len(), 320_000);
}
