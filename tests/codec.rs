use screech::read::{Samples, WavError, WavReader};
use screech::types::AudioMetadata;
use screech::write::encode_wav;

fn le32(v: u32) -> Vec<u8> {
    v.to_le_bytes().to_vec()
}

fn le16(v: u16) -> Vec<u8> {
    v.to_le_bytes().to_vec()
}

fn fmt_chunk(code: u16, channels: u16, rate: u32, bits: u16) -> Vec<u8> {
    let mut b = b"fmt ".to_vec();
    b.extend(le32(16));
    b.extend(le16(code));
    b.extend(le16(channels));
    b.extend(le32(rate));
    b.extend(le32(0));
    b.extend(le16(0));
    b.extend(le16(bits));
    b
}

fn file(chunks: &[Vec<u8>]) -> Vec<u8> {
    let mut b = b"RIFF".to_vec();
    b.extend(le32(0));
    b.extend(b"WAVE");
    for c in chunks {
        b.extend(c);
    }
    b
}

fn data_chunk(bytes: &[u8]) -> Vec<u8> {
    let mut b = b"data".to_vec();
    b.extend(le32(bytes.len() as u32));
    b.extend(bytes);
    b
}

#[test]
fn encode_then_decode_is_lossless() {
    let md = AudioMetadata {
        channels: 2,
        sample_rate: 44100,
    };
    let samples = [0.5f32, -0.25, 1.0e-7, -3.75];
    let words: Vec<u32> = samples.iter().map(|s| s.to_bits()).collect();
    let bytes = encode_wav(&md, &words);
    assert_eq!(bytes.len(), 44 + 16);
    let decoded = WavReader::new(bytes).read().unwrap();
    assert_eq!(decoded.metadata, md);
    match decoded.samples {
        Samples::Float32(w) => {
            let back: Vec<f32> = w.into_iter().map(f32::from_bits).collect();
            assert_eq!(back, samples.to_vec());
        }
        other => panic!("unexpected samples {:?}", other),
    }
}

#[test]
fn encoded_header_layout() {
    let md = AudioMetadata {
        channels: 2,
        sample_rate: 44100,
    };
    let bytes = encode_wav(&md, &vec![0x3f80_0000]);
    let mut expected = b"RIFF".to_vec();
    expected.extend(le32(36));
    expected.extend(b"WAVE");
    expected.extend(b"fmt ");
    expected.extend(le32(16));
    expected.extend(le16(3));
    expected.extend(le16(2));
    expected.extend(le32(44100));
    expected.extend(le32(176400));
    expected.extend(le16(8));
    expected.extend(le16(32));
    expected.extend(b"data");
    expected.extend(le32(4));
    expected.extend([0x00, 0x00, 0x80, 0x3f]);
    assert_eq!(bytes, expected);
}

#[test]
fn missing_riff_tag_is_a_format_error() {
    let mut b = file(&[data_chunk(&[])]);
    b[0] = b'X';
    assert_eq!(WavReader::new(b).read().unwrap_err(), WavError::Format);
}

#[test]
fn missing_wave_tag_is_a_format_error() {
    let mut b = file(&[data_chunk(&[])]);
    b[8] = b'X';
    assert_eq!(WavReader::new(b).read().unwrap_err(), WavError::Format);
}

#[test]
fn short_input_is_truncated() {
    assert_eq!(WavReader::new(vec![]).read().unwrap_err(), WavError::Truncated);
    assert_eq!(
        WavReader::new(b"RIFF\0\0\0\0WAV".to_vec()).read().unwrap_err(),
        WavError::Truncated
    );
    assert_eq!(WavReader::new(file(&[])).read().unwrap_err(), WavError::Truncated);
}

#[test]
fn fmt_chunk_too_small_is_a_format_error() {
    let mut fmt = fmt_chunk(1, 1, 8000, 16);
    fmt[4] = 14;
    assert_eq!(
        WavReader::new(file(&[fmt, data_chunk(&[])])).read().unwrap_err(),
        WavError::Format
    );
}

#[test]
fn unknown_format_code_is_unsupported() {
    let b = file(&[fmt_chunk(2, 1, 8000, 16), data_chunk(&[])]);
    assert_eq!(WavReader::new(b).read().unwrap_err(), WavError::UnsupportedEncoding);
}

#[test]
fn unsupported_bit_depths() {
    let b = file(&[fmt_chunk(1, 1, 8000, 8), data_chunk(&[1, 2])]);
    assert_eq!(WavReader::new(b).read().unwrap_err(), WavError::UnsupportedEncoding);
    let b = file(&[fmt_chunk(3, 1, 8000, 64), data_chunk(&[1, 2])]);
    assert_eq!(WavReader::new(b).read().unwrap_err(), WavError::UnsupportedEncoding);
}

#[test]
fn pcm16_samples_are_signed() {
    let b = file(&[
        fmt_chunk(1, 1, 8000, 16),
        data_chunk(&[0xff, 0x7f, 0x00, 0x80, 0xfe, 0xff, 0x01]),
    ]);
    let d = WavReader::new(b).read().unwrap();
    assert_eq!(
        d.metadata,
        AudioMetadata {
            channels: 1,
            sample_rate: 8000
        }
    );
    match d.samples {
        Samples::Pcm16(v) => assert_eq!(v, vec![32767, -32768, -2]),
        other => panic!("unexpected samples {:?}", other),
    }
}

#[test]
fn pcm24_samples_sit_at_the_top_of_an_i32() {
    let b = file(&[
        fmt_chunk(1, 2, 48000, 24),
        data_chunk(&[0x01, 0x00, 0x00, 0xff, 0xff, 0xff, 0x00, 0x00, 0x80]),
    ]);
    let d = WavReader::new(b).read().unwrap();
    match d.samples {
        Samples::Pcm24(v) => assert_eq!(v, vec![256, -256, i32::MIN]),
        other => panic!("unexpected samples {:?}", other),
    }
}

#[test]
fn other_chunks_are_skipped_and_defaults_hold() {
    let mut fact = b"fact".to_vec();
    fact.extend(le32(4));
    fact.extend([9, 9, 9, 9]);
    let mut list = b"LIST".to_vec();
    list.extend(le32(2));
    list.extend([7, 7]);
    let b = file(&[fact, list, data_chunk(&1.0f32.to_bits().to_le_bytes())]);
    let d = WavReader::new(b).read().unwrap();
    assert_eq!(
        d.metadata,
        AudioMetadata {
            channels: 2,
            sample_rate: 44100
        }
    );
    match d.samples {
        Samples::Float32(v) => assert_eq!(v, vec![0x3f80_0000]),
        other => panic!("unexpected samples {:?}", other),
    }
}

#[test]
fn data_chunk_longer_than_the_file_reads_what_is_there() {
    let mut data = b"data".to_vec();
    data.extend(le32(100));
    data.extend([0, 0, 0x80, 0x3f, 1, 2]);
    let d = WavReader::new(file(&[data])).read().unwrap();
    match d.samples {
        Samples::Float32(v) => assert_eq!(v, vec![0x3f80_0000]),
        other => panic!("unexpected samples {:?}", other),
    }
}

#[test]
fn reader_starts_at_float_defaults() {
    let r = WavReader::new(vec![1, 2, 3]);
    assert_eq!(r.pos, 0);
    assert_eq!(r.bit_depth, 32);
    assert_eq!(r.bytes, vec![1, 2, 3]);
}
