//! Engine configuration surface: engine selection, languages, and the shared
//! runtime-mutable output-language cell.

use vstd::prelude::*;

verus! {

/// Which speech-to-text engine drives transcription.
#[derive(Clone, Debug, PartialEq, Eq, Structural)]
pub enum Engine {
    /// On-device transcription with a local model.
    Local,
    /// Cloud transcription through an OpenAI-compatible endpoint.
    OpenAI,
}

/// The language captions are displayed in. `English` asks the backend to
/// translate; `Original` keeps the spoken language.
#[derive(Clone, Copy, Debug, PartialEq, Eq, Structural)]
pub enum OutputLanguage {
    Original,
    English,
}

/// Local model presets that can be fetched when no model file is given.
#[derive(Clone, Copy, Debug, PartialEq, Eq, Structural)]
pub enum WhisperModelPreset {
    Tiny,
    Base,
    Small,
    Medium,
    LargeV3,
}

/// Per-call settings handed to a transcription backend.
#[derive(Clone, Debug)]
pub struct TranscriberConfig {
    /// Spoken language hint; `None` asks the backend to auto-detect.
    pub input_language: Option<String>,
    /// Requested caption language.
    pub output_language: OutputLanguage,
    /// True for an incremental decode of a still-growing utterance.
    pub is_partial: bool,
}

/// The lower-case label used for an output language in user-facing wiring.
pub fn output_language_label(lang: OutputLanguage) -> (r: String)
    ensures
        lang == OutputLanguage::Original ==> r@ == "original"@,
        lang == OutputLanguage::English ==> r@ == "english"@,
{
    match lang {
        OutputLanguage::Original => "original".to_owned(),
        OutputLanguage::English => "english".to_owned(),
    }
}

/// The byte stored in the shared cell for a language.
pub fn language_code(lang: OutputLanguage) -> (r: u8)
    ensures
        r == (if lang == OutputLanguage::Original {
            0u8
        } else {
            1u8
        }),
{
    match lang {
        OutputLanguage::Original => 0,
        OutputLanguage::English => 1,
    }
}

/// The language a stored byte decodes to: zero is `Original`, anything else
/// `English`.
pub fn language_from_code(code: u8) -> (r: OutputLanguage)
    ensures
        r == (if code == 0 {
            OutputLanguage::Original
        } else {
            OutputLanguage::English
        }),
{
    if code == 0 {
        OutputLanguage::Original
    } else {
        OutputLanguage::English
    }
}

/// Parse a user-facing output-language name, ignoring ASCII case and
/// surrounding whitespace.
pub fn parse_output_language(s: &str) -> (r: Option<OutputLanguage>)
    ensures
        crate::text::str_eq_ci(crate::text::trim_spec(s@), "english"@) ==> r == Some(
            OutputLanguage::English,
        ),
        !crate::text::str_eq_ci(crate::text::trim_spec(s@), "english"@) && crate::text::str_eq_ci(
            crate::text::trim_spec(s@),
            "original"@,
        ) ==> r == Some(OutputLanguage::Original),
        !crate::text::str_eq_ci(crate::text::trim_spec(s@), "english"@)
            && !crate::text::str_eq_ci(crate::text::trim_spec(s@), "original"@) ==> r is None,
{
    let trimmed = crate::text::trim_ascii(s);
    if crate::text::eq_ignore_ascii_case_str(trimmed.as_str(), "english") {
        Some(OutputLanguage::English)
    } else if crate::text::eq_ignore_ascii_case_str(trimmed.as_str(), "original") {
        Some(OutputLanguage::Original)
    } else {
        None
    }
}

/// Parse the input-language option: `auto` (in any ASCII case) asks the
/// backend to auto-detect; anything else is passed through trimmed.
pub fn parse_input_language(s: &str) -> (r: Option<String>)
    ensures
        crate::text::str_eq_ci(crate::text::trim_spec(s@), "auto"@) <==> r is None,
        r matches Some(t) ==> t@ == crate::text::trim_spec(s@),
{
    let trimmed = crate::text::trim_ascii(s);
    if crate::text::eq_ignore_ascii_case_str(trimmed.as_str(), "auto") {
        None
    } else {
        Some(trimmed)
    }
}

/// The model file name and download source for a preset.
pub fn model_preset_source(preset: WhisperModelPreset) -> (r: (String, String))
    ensures
        preset == WhisperModelPreset::Tiny ==> r.0@ == "ggml-tiny.bin"@,
        preset == WhisperModelPreset::Base ==> r.0@ == "ggml-base.bin"@,
        preset == WhisperModelPreset::Small ==> r.0@ == "ggml-small.bin"@,
        preset == WhisperModelPreset::Medium ==> r.0@ == "ggml-medium.bin"@,
        preset == WhisperModelPreset::LargeV3 ==> r.0@ == "ggml-large-v3.bin"@,
        r.1@ == "https://huggingface.co/ggerganov/whisper.cpp/resolve/main/"@ + r.0@,
{
    let name: &str = match preset {
        WhisperModelPreset::Tiny => "ggml-tiny.bin",
        WhisperModelPreset::Base => "ggml-base.bin",
        WhisperModelPreset::Small => "ggml-small.bin",
        WhisperModelPreset::Medium => "ggml-medium.bin",
        WhisperModelPreset::LargeV3 => "ggml-large-v3.bin",
    };
    let mut url = "https://huggingface.co/ggerganov/whisper.cpp/resolve/main/".to_owned();
    url.append(name);
    (name.to_owned(), url)
}

/// An output-language cell shared between the transcription worker and the
/// UI: a one-byte atomic, readable and writable without locking.
///
/// Concurrent readers may observe either the old or the new language around a
/// `set`; nothing stronger is claimed of the shared cell itself, and the
/// encoding in each direction is `language_code` / `language_from_code`.
#[derive(Clone, Debug)]
pub struct SharedOutputLanguage {
    inner: std::sync::Arc<std::sync::atomic::AtomicU8>,
}

impl SharedOutputLanguage {
    /// A fresh cell holding `initial`.
    pub fn new(initial: OutputLanguage) -> Self {
        let code = language_code(initial);
        SharedOutputLanguage {
            inner: std::sync::Arc::new(std::sync::atomic::AtomicU8::new(code)),
        }
    }

    /// The language most recently observed in the cell.
    pub fn get(&self) -> OutputLanguage {
        let code = self.inner.load(std::sync::atomic::Ordering::Relaxed);
        language_from_code(code)
    }

    /// Store `value` for other threads to observe.
    pub fn set(&self, value: OutputLanguage) {
        let code = language_code(value);
        self.inner.store(code, std::sync::atomic::Ordering::Relaxed);
    }
}

} // verus!
