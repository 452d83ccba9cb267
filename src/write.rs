//! Encoding of samples as a RIFF/WAVE container of 32-bit floats.
use vstd::prelude::*;

use crate::read::{
    decodes, default_layout, parse_chunks, parse_wav, skip, u16_at,
    u32_at, words_of, Layout, Samples, WavData, WavError, DATA_TAG, FMT_TAG, RIFF_TAG, WAVE_TAG,
};
use crate::types::{riff_size, AudioMetadata, WavFormat, FMT_CHUNK_SIZE};

verus! {

/// Format code of 32-bit float samples.
pub const FLOAT_FORMAT_CODE: u16 = 3;

pub open spec fn le16(v: int) -> Seq<u8> {
    seq![(v % 256) as u8, ((v / 256) % 256) as u8]
}

pub open spec fn le32(v: int) -> Seq<u8> {
    seq![
        (v % 256) as u8,
        ((v / 256) % 256) as u8,
        ((v / 65536) % 256) as u8,
        ((v / 16777216) % 256) as u8,
    ]
}

/// The words, four little-endian bytes each.
pub open spec fn words_le(w: Seq<u32>) -> Seq<u8> {
    Seq::new(4 * w.len(), |i: int| le32(w[i / 4] as int)[i % 4])
}

/// The `RIFF` header: tag, size and `WAVE` tag.
pub open spec fn riff_part(n: nat) -> Seq<u8> {
    le32(RIFF_TAG as int) + le32(riff_size(n)) + le32(WAVE_TAG as int)
}

/// A 16-byte `fmt ` chunk for 32-bit floats.
pub open spec fn fmt_part(md: AudioMetadata) -> Seq<u8> {
    le32(FMT_TAG as int) + le32(FMT_CHUNK_SIZE as int) + le16(FLOAT_FORMAT_CODE as int) + le16(
        md.channels as int,
    ) + le32(md.sample_rate as int) + le32((md.sample_rate * 4) % 0x1_0000_0000) + le16(
        (md.channels * 4) % 0x1_0000,
    ) + le16(32)
}

/// The header of a `data` chunk of `n` words.
pub open spec fn data_part(n: nat) -> Seq<u8> {
    le32(DATA_TAG as int) + le32(4 * (n as int))
}

/// The 44 bytes before the samples.
pub open spec fn wav_header(md: AudioMetadata, n: nat) -> Seq<u8> {
    riff_part(n) + fmt_part(md) + data_part(n)
}

/// A whole file holding the given words as its samples.
pub open spec fn wav_bytes(md: AudioMetadata, w: Seq<u32>) -> Seq<u8> {
    wav_header(md, w.len()) + words_le(w)
}

proof fn lemma_le16(v: int)
    requires
        0 <= v < 0x1_0000,
    ensures
        u16_at(le16(v), 0) == v,
{
    vstd::arithmetic::div_mod::lemma_fundamental_div_mod(v, 256);
    vstd::arithmetic::div_mod::lemma_mod_bound(v, 256);
    assert(v / 256 < 256) by (nonlinear_arith)
        requires
            v == 256 * (v / 256) + v % 256,
            0 <= v % 256,
            v < 0x1_0000,
    ;
    vstd::arithmetic::div_mod::lemma_div_pos_is_pos(v, 256);
    vstd::arithmetic::div_mod::lemma_small_mod((v / 256) as nat, 256);
}

proof fn lemma_le32(v: int)
    requires
        0 <= v < 0x1_0000_0000,
    ensures
        u32_at(le32(v), 0) == v,
{
    vstd::arithmetic::div_mod::lemma_fundamental_div_mod(v, 256);
    vstd::arithmetic::div_mod::lemma_mod_bound(v, 256);
    vstd::arithmetic::div_mod::lemma_div_pos_is_pos(v, 256);
    vstd::arithmetic::div_mod::lemma_div_denominator(v, 256, 256);
    vstd::arithmetic::div_mod::lemma_fundamental_div_mod(v / 256, 256);
    vstd::arithmetic::div_mod::lemma_mod_bound(v / 256, 256);
    vstd::arithmetic::div_mod::lemma_div_pos_is_pos(v, 65536);
    vstd::arithmetic::div_mod::lemma_div_denominator(v, 65536, 256);
    vstd::arithmetic::div_mod::lemma_fundamental_div_mod(v / 65536, 256);
    vstd::arithmetic::div_mod::lemma_mod_bound(v / 65536, 256);
    vstd::arithmetic::div_mod::lemma_div_pos_is_pos(v, 16777216);
    vstd::arithmetic::div_mod::lemma_fundamental_div_mod(v, 16777216);
    vstd::arithmetic::div_mod::lemma_mod_bound(v, 16777216);
    assert(v / 16777216 < 256) by (nonlinear_arith)
        requires
            v == 16777216 * (v / 16777216) + v % 16777216,
            0 <= v % 16777216,
            v < 0x1_0000_0000,
    ;
    vstd::arithmetic::div_mod::lemma_small_mod((v / 16777216) as nat, 256);
}

/// Reads of a field that was written as `le32(v)` at `p` give `v` back.
proof fn lemma_read_u32(b: Seq<u8>, p: int, v: int)
    requires
        0 <= v < 0x1_0000_0000,
        0 <= p,
        p + 4 <= b.len(),
        b.subrange(p, p + 4) == le32(v),
    ensures
        u32_at(b, p) == v,
{
    lemma_le32(v);
    assert(b[p] == b.subrange(p, p + 4)[0]);
    assert(b[p + 1] == b.subrange(p, p + 4)[1]);
    assert(b[p + 2] == b.subrange(p, p + 4)[2]);
    assert(b[p + 3] == b.subrange(p, p + 4)[3]);
}

proof fn lemma_read_u16(b: Seq<u8>, p: int, v: int)
    requires
        0 <= v < 0x1_0000,
        0 <= p,
        p + 2 <= b.len(),
        b.subrange(p, p + 2) == le16(v),
    ensures
        u16_at(b, p) == v,
{
    lemma_le16(v);
    assert(b[p] == b.subrange(p, p + 2)[0]);
    assert(b[p + 1] == b.subrange(p, p + 2)[1]);
}

proof fn lemma_header_fields(md: AudioMetadata, n: nat)
    requires
        riff_size(n) <= u32::MAX,
    ensures
        ({
            let h = wav_header(md, n);
            &&& h.len() == 44
            &&& u32_at(h, 0) == RIFF_TAG
            &&& u32_at(h, 8) == WAVE_TAG
            &&& u32_at(h, 12) == FMT_TAG
            &&& u32_at(h, 16) == 16
            &&& u16_at(h, 20) == 3
            &&& u16_at(h, 22) == md.channels
            &&& u32_at(h, 24) == md.sample_rate
            &&& u16_at(h, 34) == 32
            &&& u32_at(h, 36) == DATA_TAG
            &&& u32_at(h, 40) == 4 * n
        }),
{
    let r = riff_part(n);
    let f = fmt_part(md);
    let d = data_part(n);
    let h = wav_header(md, n);
    assert(r.subrange(0, 4) =~= le32(RIFF_TAG as int));
    lemma_read_u32(r, 0, RIFF_TAG as int);
    assert(r.subrange(8, 12) =~= le32(WAVE_TAG as int));
    lemma_read_u32(r, 8, WAVE_TAG as int);
    assert(f.subrange(0, 4) =~= le32(FMT_TAG as int));
    lemma_read_u32(f, 0, FMT_TAG as int);
    assert(f.subrange(4, 8) =~= le32(16));
    lemma_read_u32(f, 4, 16);
    assert(f.subrange(8, 10) =~= le16(3));
    lemma_read_u16(f, 8, 3);
    assert(f.subrange(10, 12) =~= le16(md.channels as int));
    lemma_read_u16(f, 10, md.channels as int);
    assert(f.subrange(12, 16) =~= le32(md.sample_rate as int));
    lemma_read_u32(f, 12, md.sample_rate as int);
    assert(f.subrange(22, 24) =~= le16(32));
    lemma_read_u16(f, 22, 32);
    assert(d.subrange(0, 4) =~= le32(DATA_TAG as int));
    lemma_read_u32(d, 0, DATA_TAG as int);
    assert(d.subrange(4, 8) =~= le32(4 * (n as int)));
    lemma_read_u32(d, 4, 4 * (n as int));
    assert(r.len() == 12 && f.len() == 24 && d.len() == 8);
    assert forall|k: int| 0 <= k < 12 implies h[k] == r[k] by {}
    assert forall|k: int| 0 <= k < 24 implies h[12 + k] == f[k] by {}
    assert forall|k: int| 0 <= k < 8 implies h[36 + k] == d[k] by {}
}

/// The samples of an encoded file, read back as words, are the words written.
proof fn lemma_words_back(w: Seq<u32>)
    ensures
        words_of(words_le(w)) == w,
{
    let d = words_le(w);
    assert forall|i: int| 0 <= i < w.len() implies #[trigger] words_of(d)[i] == w[i] by {
        assert(d.subrange(4 * i, 4 * i + 4) =~= le32(w[i] as int)) by {
            assert forall|j: int| 0 <= j < 4 implies d[4 * i + j] == le32(w[i] as int)[j] by {
                assert((4 * i + j) / 4 == i && (4 * i + j) % 4 == j) by (nonlinear_arith)
                    requires
                        0 <= j < 4,
                ;
            }
        }
        lemma_read_u32(d, 4 * i, w[i] as int);
    }
    assert(words_of(d) =~= w);
}

/// Encoding samples and decoding the bytes gives back the metadata and the
/// very same 32-bit samples.
pub proof fn lemma_encode_decode(md: AudioMetadata, w: Seq<u32>, r: Result<WavData, WavError>)
    requires
        riff_size(w.len()) <= u32::MAX,
        decodes(wav_bytes(md, w), r),
    ensures
        match r {
            Ok(d) => d.metadata == md && match d.samples {
                Samples::Float32(v) => v@ == w,
                _ => false,
            },
            Err(_) => false,
        },
{
    let n = w.len() as int;
    let b = wav_bytes(md, w);
    let h = wav_header(md, w.len());
    lemma_header_fields(md, w.len());
    assert(u32_at(b, 0) == u32_at(h, 0));
    assert(u32_at(b, 8) == u32_at(h, 8));
    assert(u32_at(b, 12) == u32_at(h, 12));
    assert(u32_at(b, 16) == u32_at(h, 16));
    assert(u16_at(b, 20) == u16_at(h, 20));
    assert(u16_at(b, 22) == u16_at(h, 22));
    assert(u32_at(b, 24) == u32_at(h, 24));
    assert(u16_at(b, 34) == u16_at(h, 34));
    assert(u32_at(b, 36) == u32_at(h, 36));
    assert(u32_at(b, 40) == u32_at(h, 40));
    let l = Layout { metadata: md, format: WavFormat::FLOAT, bit_depth: 32 };
    assert(skip(b, 28, 6) == 34);
    assert(skip(b, 36, 0) == 36);
    assert(skip(b, 44, 4 * n) == b.len());
    assert(parse_chunks(b, 36, l) == Ok::<(Layout, int, int), WavError>((l, 44, b.len() as int)));
    assert(parse_chunks(b, 12, default_layout()) == parse_chunks(b, 36, l));
    assert(parse_wav(b) == Ok::<(Layout, int, int), WavError>((l, 44, b.len() as int)));
    assert(b.subrange(44, b.len() as int) =~= words_le(w));
    lemma_words_back(w);
}

fn push_u16(out: &mut Vec<u8>, v: u16)
    ensures
        final(out)@ == old(out)@ + le16(v as int),
{
    out.push((v % 256) as u8);
    out.push((v / 256) as u8);
    assert(final(out)@ =~= old(out)@ + le16(v as int));
}

fn push_u32(out: &mut Vec<u8>, v: u32)
    ensures
        final(out)@ == old(out)@ + le32(v as int),
{
    out.push((v % 256) as u8);
    out.push(((v / 256) % 256) as u8);
    out.push(((v / 65536) % 256) as u8);
    out.push((v / 16777216) as u8);
    assert(final(out)@ =~= old(out)@ + le32(v as int));
}

/// The bytes of a file of 32-bit float samples, given as their bit patterns.
pub fn encode_wav(metadata: &AudioMetadata, words: &Vec<u32>) -> (r: Vec<u8>)
    requires
        riff_size(words@.len()) <= u32::MAX,
    ensures
        r@ == wav_bytes(*metadata, words@),
{
    let n = words.len() as u32;
    let mut out: Vec<u8> = Vec::new();
    push_u32(&mut out, RIFF_TAG);
    push_u32(&mut out, 4 + 20 + 8 + 4 * n);
    push_u32(&mut out, WAVE_TAG);
    push_u32(&mut out, FMT_TAG);
    push_u32(&mut out, FMT_CHUNK_SIZE);
    push_u16(&mut out, FLOAT_FORMAT_CODE);
    push_u16(&mut out, metadata.channels);
    push_u32(&mut out, metadata.sample_rate);
    push_u32(&mut out, ((metadata.sample_rate as u64 * 32 / 8) % 0x1_0000_0000) as u32);
    push_u16(&mut out, ((metadata.channels as u32 * 4) % 0x1_0000) as u16);
    push_u16(&mut out, 32);
    push_u32(&mut out, DATA_TAG);
    push_u32(&mut out, 4 * n);
    let ghost header = out@;
    assert(header =~= wav_header(*metadata, words@.len()));
    let mut i: usize = 0;
    while i < words.len()
        invariant
            header == wav_header(*metadata, words@.len()),
            i <= words@.len(),
            out@ =~= header + words_le(words@.subrange(0, i as int)),
        decreases words@.len() - i,
    {
        let ghost before = out@;
        push_u32(&mut out, words[i]);
        i = i + 1;
        proof {
            let w = words@.subrange(0, i as int);
            let wp = words@.subrange(0, i - 1);
            assert forall|k: int| 0 <= k < 4 * i implies #[trigger] words_le(w)[k] == (words_le(wp)
                + le32(words@[i - 1] as int))[k] by {
                if k < 4 * (i - 1) {
                    assert(k / 4 < i - 1) by (nonlinear_arith)
                        requires
                            0 <= k < 4 * (i - 1),
                    ;
                } else {
                    assert(k / 4 == i - 1 && k % 4 == k - 4 * (i - 1)) by (nonlinear_arith)
                        requires
                            4 * (i - 1) <= k < 4 * i,
                    ;
                }
            }
            assert(words_le(w) =~= words_le(wp) + le32(words@[i - 1] as int));
        }
    }
    assert(words@.subrange(0, words@.len() as int) =~= words@);
    out
}

} // verus!
