use subtitles::config::{
    language_code, language_from_code, model_preset_source, output_language_label,
    parse_input_language, parse_output_language, OutputLanguage, SharedOutputLanguage,
    WhisperModelPreset,
};

#[test]
fn labels_are_lower_case() {
    assert_eq!(output_language_label(OutputLanguage::Original), "original");
    assert_eq!(output_language_label(OutputLanguage::English), "english");
}

#[test]
fn output_language_parses_ignoring_case_and_whitespace() {
    assert_eq!(parse_output_language("english"), Some(OutputLanguage::English));
    assert_eq!(parse_output_language("  English "), Some(OutputLanguage::English));
    assert_eq!(parse_output_language("ORIGINAL"), Some(OutputLanguage::Original));
    assert_eq!(parse_output_language("original"), Some(OutputLanguage::Original));
    assert_eq!(parse_output_language("french"), None);
    assert_eq!(parse_output_language(""), None);
}

#[test]
fn input_language_auto_maps_to_none() {
    assert_eq!(parse_input_language("auto"), None);
    assert_eq!(parse_input_language(" AUTO "), None);
    assert_eq!(parse_input_language(" en "), Some("en".to_string()));
    assert_eq!(parse_input_language("zh"), Some("zh".to_string()));
}

#[test]
fn language_codes_round_trip() {
    for lang in [OutputLanguage::Original, OutputLanguage::English] {
        assert_eq!(language_from_code(language_code(lang)), lang);
    }
    assert_eq!(language_from_code(0), OutputLanguage::Original);
    assert_eq!(language_from_code(7), OutputLanguage::English);
}

#[test]
fn shared_cell_stores_and_returns_the_language() {
    let shared = SharedOutputLanguage::new(OutputLanguage::Original);
    assert_eq!(shared.get(), OutputLanguage::Original);
    shared.set(OutputLanguage::English);
    assert_eq!(shared.get(), OutputLanguage::English);
    let alias = shared.clone();
    alias.set(OutputLanguage::Original);
    assert_eq!(shared.get(), OutputLanguage::Original);
}

#[test]
fn preset_sources_point_at_their_model_files() {
    let (name, url) = model_preset_source(WhisperModelPreset::Tiny);
    assert_eq!(name, "ggml-tiny.bin");
    assert_eq!(
        url,
        "https://huggingface.co/ggerganov/whisper.cpp/resolve/main/ggml-tiny.bin"
    );
    let (name, url) = model_preset_source(WhisperModelPreset::LargeV3);
    assert_eq!(name, "ggml-large-v3.bin");
    assert!(url.ends_with("ggml-large-v3.bin"));
    for preset in [
        WhisperModelPreset::Base,
        WhisperModelPreset::Small,
        WhisperModelPreset::Medium,
    ] {
        let (name, url) = model_preset_source(preset);
        assert!(name.starts_with("ggml-"));
        assert!(url.ends_with(name.as_str()));
    }
}
