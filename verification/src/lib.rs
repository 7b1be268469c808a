//! A real-time captioning engine: segments a stream of PCM audio into
//! utterances with voice-activity detection, and stabilizes overlapping
//! speech-to-text hypotheses into a monotonically growing committed prefix
//! plus a volatile pending tail.
//!
//! Audio samples are 16-bit PCM (16 kHz mono). Voice-activity decisions
//! compare the mean square of a frame against the square of the configured
//! RMS threshold, which keeps all of the segmentation arithmetic exact.

pub mod audio;
pub mod capture;
pub mod config;
pub mod segmenter;
pub mod stabilizer;
pub mod text;
pub mod wav;
pub mod worker;
