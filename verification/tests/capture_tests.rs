use subtitles::capture::{
    classify_buffer_layout, decode_i16_le, mix_interleaved, mix_planar, BufferLayout,
    CaptureError, Decimator3,
};

#[test]
fn decodes_little_endian_pcm16() {
    let bytes = [0x34u8, 0x12, 0xFF, 0xFF, 0x00, 0x80];
    let samples = decode_i16_le(&bytes).unwrap();
    assert_eq!(samples, vec![0x1234, -1, i16::MIN]);
}

#[test]
fn odd_byte_count_is_rejected() {
    let bytes = [0x01u8, 0x02, 0x03];
    assert_eq!(decode_i16_le(&bytes), Err(CaptureError::TruncatedBuffer));
}

#[test]
fn unexpected_sample_rate_is_rejected() {
    let r = classify_buffer_layout(44_100, false, 1, 2, true, 32);
    assert_eq!(r, Err(CaptureError::UnexpectedSampleRate));
}

#[test]
fn big_endian_is_rejected() {
    let r = classify_buffer_layout(48_000, true, 1, 2, true, 32);
    assert_eq!(r, Err(CaptureError::BigEndianUnsupported));
}

#[test]
fn supported_layouts_are_classified() {
    assert_eq!(
        classify_buffer_layout(48_000, false, 1, 2, true, 32),
        Ok(BufferLayout::InterleavedF32)
    );
    assert_eq!(
        classify_buffer_layout(48_000, false, 1, 2, false, 16),
        Ok(BufferLayout::InterleavedI16)
    );
    assert_eq!(
        classify_buffer_layout(48_000, false, 2, 2, true, 32),
        Ok(BufferLayout::PlanarF32)
    );
    assert_eq!(
        classify_buffer_layout(48_000, false, 2, 2, false, 16),
        Ok(BufferLayout::PlanarI16)
    );
    assert_eq!(
        classify_buffer_layout(48_000, false, 3, 2, false, 16),
        Err(CaptureError::UnsupportedLayout)
    );
    assert_eq!(
        classify_buffer_layout(48_000, false, 1, 2, false, 24),
        Err(CaptureError::UnsupportedLayout)
    );
}

#[test]
fn interleaved_mix_averages_each_frame() {
    let samples = vec![10i16, 20, 30, 40, -3, -4];
    let mono = mix_interleaved(&samples, 2);
    assert_eq!(mono, vec![15, 35, -3]);
}

#[test]
fn interleaved_mix_with_one_channel_is_identity() {
    let samples = vec![5i16, -7, 0];
    assert_eq!(mix_interleaved(&samples, 1), samples);
}

#[test]
fn planar_mix_stops_at_the_shortest_channel() {
    let channels = vec![vec![1i16, 2, 3], vec![3i16, 4]];
    assert_eq!(mix_planar(&channels), vec![2, 3]);
}

#[test]
fn decimator_emits_every_third_sample_mean() {
    let mut dec = Decimator3::new();
    assert_eq!(dec.push(1), None);
    assert_eq!(dec.push(2), None);
    assert_eq!(dec.push(3), Some(2));
    assert_eq!(dec.push(-1), None);
    assert_eq!(dec.push(-2), None);
    assert_eq!(dec.push(-3), Some(-2));
}

#[test]
fn decimator_state_persists_across_chunks() {
    let mut dec = Decimator3::new();
    assert_eq!(dec.decimate(&vec![30i16, 60]), vec![]);
    assert_eq!(dec.decimate(&vec![90i16, 1, 1]), vec![60]);
    assert_eq!(dec.decimate(&vec![1i16]), vec![1]);
}

#[test]
fn decimation_reduces_three_to_one() {
    let mut dec = Decimator3::new();
    let input = vec![100i16; 48_000];
    let out = dec.decimate(&input);
    assert_eq!(out.len(), 16_000);
    assert!(out.iter().all(|&s| s == 100));
}
