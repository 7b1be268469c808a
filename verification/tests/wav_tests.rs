use subtitles::config::{OutputLanguage, TranscriberConfig};
use subtitles::wav::prepare_transcription_request;

fn cfg(lang: OutputLanguage, hint: Option<&str>) -> TranscriberConfig {
    TranscriberConfig {
        input_language: hint.map(|s| s.to_string()),
        output_language: lang,
        is_partial: false,
    }
}

#[test]
fn empty_audio_needs_no_request() {
    let r = prepare_transcription_request(&Vec::new(), &cfg(OutputLanguage::Original, None));
    assert!(r.is_none());
}

#[test]
fn wav_payload_has_header_and_samples() {
    let samples = vec![100i16, -100, 0];
    let req = prepare_transcription_request(&samples, &cfg(OutputLanguage::Original, None))
        .expect("encoding in memory succeeds");
    assert_eq!(req.wav.len(), 44 + 2 * samples.len());
    assert_eq!(&req.wav[0..4], b"RIFF");
    assert_eq!(&req.wav[8..12], b"WAVE");

    // The payload decodes back to the exact samples.
    let reader = hound::WavReader::new(std::io::Cursor::new(req.wav)).expect("valid wav");
    let spec = reader.spec();
    assert_eq!(spec.channels, 1);
    assert_eq!(spec.sample_rate, 16_000);
    assert_eq!(spec.bits_per_sample, 16);
    let decoded: Vec<i16> = reader
        .into_samples::<i16>()
        .map(|s| s.expect("sample"))
        .collect();
    assert_eq!(decoded, samples);
}

#[test]
fn translation_is_requested_for_english_output() {
    let samples = vec![1i16, 2, 3, 4];
    let req = prepare_transcription_request(&samples, &cfg(OutputLanguage::English, None))
        .expect("encoding in memory succeeds");
    assert!(req.translate);
    let req = prepare_transcription_request(&samples, &cfg(OutputLanguage::Original, None))
        .expect("encoding in memory succeeds");
    assert!(!req.translate);
}

#[test]
fn language_hint_is_passed_through() {
    let samples = vec![1i16];
    let req = prepare_transcription_request(&samples, &cfg(OutputLanguage::Original, Some("ja")))
        .expect("encoding in memory succeeds");
    assert_eq!(req.language.as_deref(), Some("ja"));
    let req = prepare_transcription_request(&samples, &cfg(OutputLanguage::Original, None))
        .expect("encoding in memory succeeds");
    assert!(req.language.is_none());
}
