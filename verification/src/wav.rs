//! WAV encoding of utterance audio for cloud transcription uploads.

use vstd::prelude::*;

use crate::config::{OutputLanguage, TranscriberConfig};

verus! {

/// The RIFF/WAVE encoding of 16 kHz mono PCM16 samples: a function of the
/// samples alone.
pub uninterp spec fn wav_encoding(samples: Seq<i16>) -> Seq<u8>;

/// The most samples one WAV file can carry: the RIFF header stores the
/// payload and file sizes in 32-bit fields, so the 44-byte header plus two
/// bytes per sample must stay within them.
pub const MAX_WAV_SAMPLES: usize = 2_147_483_625;

/// Relies on hound's `WavWriter` (16-bit integer samples, one channel, 16
/// kHz): writing to an in-memory cursor cannot fail, and within the 32-bit
/// RIFF size fields the bytes produced are a pure function of the samples,
/// a 44-byte header followed by two little-endian bytes per sample.
#[verifier::external_body]
fn encode_wav_pcm16(samples: &Vec<i16>) -> (r: Vec<u8>)
    requires
        samples@.len() <= MAX_WAV_SAMPLES,
    ensures
        r@ == wav_encoding(samples@),
        r@.len() == 44 + 2 * samples@.len(),
{
    let spec = hound::WavSpec {
        channels: 1,
        sample_rate: 16_000,
        bits_per_sample: 16,
        sample_format: hound::SampleFormat::Int,
    };
    let mut bytes: Vec<u8> = Vec::new();
    let mut writer = hound::WavWriter::new(std::io::Cursor::new(&mut bytes), spec)
        .expect("in-memory WAV writes cannot fail");
    for &s in samples.iter() {
        writer.write_sample(s).expect("in-memory WAV writes cannot fail");
    }
    writer.finalize().expect("in-memory WAV writes cannot fail");
    bytes
}

/// A prepared cloud transcription upload.
pub struct TranscriptionRequest {
    /// The utterance as a WAV file.
    pub wav: Vec<u8>,
    /// Whether the translation endpoint must be used instead of the
    /// transcription endpoint.
    pub translate: bool,
    /// The language hint forwarded with the upload.
    pub language: Option<String>,
}

/// Build the upload for a cloud transcription call: a request is produced
/// exactly when there is audio and it fits one WAV file (empty audio needs
/// no request, an empty hypothesis being implied). Translation is requested
/// exactly when the output language is English, and the language hint is
/// passed through.
pub fn prepare_transcription_request(samples: &Vec<i16>, cfg: &TranscriberConfig) -> (r: Option<
    TranscriptionRequest,
>)
    ensures
        r is Some <==> 0 < samples@.len() <= MAX_WAV_SAMPLES,
        r matches Some(req) ==> {
            &&& req.wav@ == wav_encoding(samples@)
            &&& req.wav@.len() == 44 + 2 * samples@.len()
            &&& req.translate == (cfg.output_language == OutputLanguage::English)
            &&& req.language == cfg.input_language
        },
{
    if samples.len() == 0 || samples.len() > MAX_WAV_SAMPLES {
        return None;
    }
    let wav = encode_wav_pcm16(samples);
    let translate = match cfg.output_language {
        OutputLanguage::English => true,
        OutputLanguage::Original => false,
    };
    let language = match &cfg.input_language {
        Some(s) => Some(s.clone()),
        None => None,
    };
    Some(TranscriptionRequest { wav, translate, language })
}

} // verus!
