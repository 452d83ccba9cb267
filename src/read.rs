//! Decoding of the RIFF/WAVE container from its bytes.
use vstd::prelude::*;

use crate::types::{AudioMetadata, WavFormat};

verus! {

/// Tags of the container, as little-endian 32-bit words.
pub const RIFF_TAG: u32 = 0x4646_4952;
pub const WAVE_TAG: u32 = 0x4556_4157;
pub const FMT_TAG: u32 = 0x2074_6d66;
pub const DATA_TAG: u32 = 0x6174_6164;

/// Why a byte stream could not be decoded.
#[derive(Clone, Copy, Debug, PartialEq, Eq, Structural)]
pub enum WavError {
    /// The stream ends before a field that must be read.
    Truncated,
    /// A structural marker is missing or a chunk is malformed.
    Format,
    /// The sample encoding is not 16- or 24-bit integer PCM or 32-bit float.
    UnsupportedEncoding,
}

/// The samples of a `data` chunk, in the encoding the file gave them.
#[derive(Clone, Debug)]
pub enum Samples {
    /// 32-bit IEEE floats, as their bit patterns.
    Float32(Vec<u32>),
    /// 16-bit signed integers.
    Pcm16(Vec<i16>),
    /// 24-bit signed integers, shifted to the top of an `i32`.
    Pcm24(Vec<i32>),
}

/// A decoded file: its metadata and its samples.
#[derive(Clone, Debug)]
pub struct WavData {
    pub metadata: AudioMetadata,
    pub samples: Samples,
}

pub open spec fn u16_at(b: Seq<u8>, p: int) -> int {
    b[p] + 256 * b[p + 1]
}

pub open spec fn u32_at(b: Seq<u8>, p: int) -> int {
    b[p] + 256 * b[p + 1] + 65536 * b[p + 2] + 16777216 * b[p + 3]
}

/// Two bytes read as a little-endian two's complement integer.
pub open spec fn i16_at(b: Seq<u8>, p: int) -> int {
    if b[p + 1] >= 128 {
        u16_at(b, p) - 65536
    } else {
        u16_at(b, p)
    }
}

/// Three bytes read as a little-endian two's complement integer, times 256.
pub open spec fn i24_at(b: Seq<u8>, p: int) -> int {
    let v = 256 * b[p] + 65536 * b[p + 1] + 16777216 * b[p + 2];
    if b[p + 2] >= 128 {
        v - 4294967296
    } else {
        v
    }
}

/// The words of `b`, four bytes each; a partial word at the end is dropped.
pub open spec fn words_of(b: Seq<u8>) -> Seq<u32> {
    Seq::new(b.len() / 4, |i: int| u32_at(b, 4 * i) as u32)
}

pub open spec fn pcm16_of(b: Seq<u8>) -> Seq<i16> {
    Seq::new(b.len() / 2, |i: int| i16_at(b, 2 * i) as i16)
}

pub open spec fn pcm24_of(b: Seq<u8>) -> Seq<i32> {
    Seq::new(b.len() / 3, |i: int| i24_at(b, 3 * i) as i32)
}

/// The encodings the decoder reads.
pub open spec fn supported(format: WavFormat, bit_depth: u16) -> bool {
    match format {
        WavFormat::FLOAT => bit_depth == 32,
        WavFormat::PCM => bit_depth == 16 || bit_depth == 24,
    }
}

/// `s` holds the samples that the bytes `b` encode in the given encoding.
pub open spec fn samples_decode(s: Samples, format: WavFormat, bit_depth: u16, b: Seq<u8>) -> bool {
    match s {
        Samples::Float32(v) => format == WavFormat::FLOAT && bit_depth == 32 && v@ == words_of(b),
        Samples::Pcm16(v) => format == WavFormat::PCM && bit_depth == 16 && v@ == pcm16_of(b),
        Samples::Pcm24(v) => format == WavFormat::PCM && bit_depth == 24 && v@ == pcm24_of(b),
    }
}

/// Skipping moves forward, but not past the end.
pub open spec fn skip(b: Seq<u8>, p: int, n: int) -> int {
    if p + n < b.len() {
        p + n
    } else {
        b.len() as int
    }
}

/// What the fields read so far say about the file.
pub struct Layout {
    pub metadata: AudioMetadata,
    pub format: WavFormat,
    pub bit_depth: u16,
}

/// The chunks from position `p` on, given what earlier chunks set: the layout
/// and the byte range of the samples, or why decoding fails.
pub open spec fn parse_chunks(b: Seq<u8>, p: int, l: Layout) -> Result<(Layout, int, int), WavError>
    decreases b.len() - p,
{
    if p < 0 || p + 4 > b.len() {
        Err(WavError::Truncated)
    } else {
        let tag = u32_at(b, p);
        let p = p + 4;
        if p + 4 > b.len() {
            Err(WavError::Truncated)
        } else {
            let size = u32_at(b, p);
            let p = p + 4;
            if tag == FMT_TAG {
                if p + 2 > b.len() {
                    Err(WavError::Truncated)
                } else if u16_at(b, p) != 1 && u16_at(b, p) != 3 {
                    Err(WavError::UnsupportedEncoding)
                } else if p + 8 > b.len() {
                    Err(WavError::Truncated)
                } else {
                    let format = if u16_at(b, p) == 1 { WavFormat::PCM } else { WavFormat::FLOAT };
                    let metadata = AudioMetadata {
                        channels: u16_at(b, p + 2) as u16,
                        sample_rate: u32_at(b, p + 4) as u32,
                    };
                    let p = skip(b, p + 8, 6);
                    if p + 2 > b.len() {
                        Err(WavError::Truncated)
                    } else if size < 16 {
                        Err(WavError::Format)
                    } else {
                        parse_chunks(
                            b,
                            skip(b, p + 2, size - 16),
                            Layout { metadata, format, bit_depth: u16_at(b, p) as u16 },
                        )
                    }
                }
            } else if tag == DATA_TAG {
                if supported(l.format, l.bit_depth) {
                    Ok((l, p, skip(b, p, size)))
                } else {
                    Err(WavError::UnsupportedEncoding)
                }
            } else {
                parse_chunks(b, skip(b, p, size), l)
            }
        }
    }
}

/// The layout a file has until a `fmt ` chunk says otherwise.
pub open spec fn default_layout() -> Layout {
    Layout {
        metadata: AudioMetadata { channels: 2, sample_rate: 44100 },
        format: WavFormat::FLOAT,
        bit_depth: 32,
    }
}

/// A whole file: the `RIFF` tag, a size that is not checked, the `WAVE` tag,
/// then chunks up to and including the `data` chunk.
pub open spec fn parse_wav(b: Seq<u8>) -> Result<(Layout, int, int), WavError> {
    if b.len() < 4 {
        Err(WavError::Truncated)
    } else if u32_at(b, 0) != RIFF_TAG {
        Err(WavError::Format)
    } else if b.len() < 12 {
        Err(WavError::Truncated)
    } else if u32_at(b, 8) != WAVE_TAG {
        Err(WavError::Format)
    } else {
        parse_chunks(b, 12, default_layout())
    }
}

/// What decoding `b` gives.
pub open spec fn decodes(b: Seq<u8>, r: Result<WavData, WavError>) -> bool {
    match parse_wav(b) {
        Ok((l, start, end)) => match r {
            Ok(d) => d.metadata == l.metadata && samples_decode(
                d.samples,
                l.format,
                l.bit_depth,
                b.subrange(start, end),
            ),
            Err(_) => false,
        },
        Err(e) => r == Err::<WavData, WavError>(e),
    }
}

/// A decoder over the bytes of a whole file.
pub struct WavReader {
    pub bytes: Vec<u8>,
    pub pos: usize,
    pub format: WavFormat,
    pub bit_depth: u16,
}

impl WavReader {
    /// A decoder at the start of `bytes`, expecting 32-bit floats until told otherwise.
    pub fn new(bytes: Vec<u8>) -> (r: WavReader)
        ensures
            r.bytes@ == bytes@,
            r.pos == 0,
            r.format == WavFormat::FLOAT,
            r.bit_depth == 32,
    {
        WavReader { bytes, pos: 0, bit_depth: 32, format: WavFormat::FLOAT }
    }

    /// Moves forward `n` bytes, or to the end if fewer are left.
    fn skip_bytes(&mut self, n: u32)
        requires
            old(self).pos <= old(self).bytes@.len(),
        ensures
            final(self).bytes == old(self).bytes,
            final(self).format == old(self).format,
            final(self).bit_depth == old(self).bit_depth,
            final(self).pos == skip(old(self).bytes@, old(self).pos as int, n as int),
    {
        if (n as usize) < self.bytes.len() - self.pos {
            self.pos = self.pos + n as usize;
        } else {
            self.pos = self.bytes.len();
        }
    }

    fn read_u16(&mut self) -> (r: Result<u16, WavError>)
        requires
            old(self).pos <= old(self).bytes@.len(),
        ensures
            final(self).bytes == old(self).bytes,
            final(self).format == old(self).format,
            final(self).bit_depth == old(self).bit_depth,
            final(self).pos <= final(self).bytes@.len(),
            old(self).pos + 2 <= old(self).bytes@.len() ==> r == Ok::<u16, WavError>(
                u16_at(old(self).bytes@, old(self).pos as int) as u16,
            ) && final(self).pos == old(self).pos + 2,
            old(self).pos + 2 > old(self).bytes@.len() ==> r == Err::<u16, WavError>(WavError::Truncated),
    {
        if self.bytes.len() - self.pos < 2 {
            return Err(WavError::Truncated);
        }
        let p = self.pos;
        let v = self.bytes[p] as u16 + 256 * (self.bytes[p + 1] as u16);
        self.pos = p + 2;
        Ok(v)
    }

    fn read_u32(&mut self) -> (r: Result<u32, WavError>)
        requires
            old(self).pos <= old(self).bytes@.len(),
        ensures
            final(self).bytes == old(self).bytes,
            final(self).format == old(self).format,
            final(self).bit_depth == old(self).bit_depth,
            final(self).pos <= final(self).bytes@.len(),
            old(self).pos + 4 <= old(self).bytes@.len() ==> r == Ok::<u32, WavError>(
                u32_at(old(self).bytes@, old(self).pos as int) as u32,
            ) && final(self).pos == old(self).pos + 4,
            old(self).pos + 4 > old(self).bytes@.len() ==> r == Err::<u32, WavError>(WavError::Truncated),
    {
        if self.bytes.len() - self.pos < 4 {
            return Err(WavError::Truncated);
        }
        let p = self.pos;
        let v = self.bytes[p] as u32 + 256 * (self.bytes[p + 1] as u32) + 65536 * (
        self.bytes[p + 2] as u32) + 16777216 * (self.bytes[p + 3] as u32);
        self.pos = p + 4;
        Ok(v)
    }
}


/// Decodes the chunks from the reader's position on, given the metadata that
/// earlier chunks set.
fn read_chunks(reader: WavReader, md: AudioMetadata) -> (r: Result<WavData, WavError>)
    requires
        reader.pos <= reader.bytes@.len(),
    ensures
        match parse_chunks(
            reader.bytes@,
            reader.pos as int,
            Layout { metadata: md, format: reader.format, bit_depth: reader.bit_depth },
        ) {
            Ok((l, start, end)) => match r {
                Ok(d) => d.metadata == l.metadata && samples_decode(
                    d.samples,
                    l.format,
                    l.bit_depth,
                    reader.bytes@.subrange(start, end),
                ),
                Err(_) => false,
            },
            Err(e) => r == Err::<WavData, WavError>(e),
        },
{
    let ghost b = reader.bytes@;
    let ghost goal = parse_chunks(
        b,
        reader.pos as int,
        Layout { metadata: md, format: reader.format, bit_depth: reader.bit_depth },
    );
    let mut wr = reader;
    let mut metadata = md;
    loop
        invariant
            goal == parse_chunks(
                reader.bytes@,
                reader.pos as int,
                Layout { metadata: md, format: reader.format, bit_depth: reader.bit_depth },
            ),
            b == reader.bytes@,
            wr.bytes@ == b,
            wr.pos <= b.len(),
            goal == parse_chunks(
                b,
                wr.pos as int,
                Layout { metadata, format: wr.format, bit_depth: wr.bit_depth },
            ),
        decreases b.len() - wr.pos,
    {
        let tag = match wr.read_u32() {
            Ok(t) => t,
            Err(e) => {
                return Err(e);
            },
        };
        let size = match wr.read_u32() {
            Ok(t) => t,
            Err(e) => {
                return Err(e);
            },
        };
        if tag == FMT_TAG {
            let code = match wr.read_u16() {
                Ok(t) => t,
                Err(e) => {
                    return Err(e);
                },
            };
            let format = if code == 1 {
                WavFormat::PCM
            } else if code == 3 {
                WavFormat::FLOAT
            } else {
                return Err(WavError::UnsupportedEncoding);
            };
            let channels = match wr.read_u16() {
                Ok(t) => t,
                Err(e) => {
                    return Err(e);
                },
            };
            let sample_rate = match wr.read_u32() {
                Ok(t) => t,
                Err(e) => {
                    return Err(e);
                },
            };
            wr.skip_bytes(6);
            let bit_depth = match wr.read_u16() {
                Ok(t) => t,
                Err(e) => {
                    return Err(e);
                },
            };
            if size < 16 {
                return Err(WavError::Format);
            }
            wr.skip_bytes(size - 16);
            wr.format = format;
            wr.bit_depth = bit_depth;
            metadata = AudioMetadata { channels, sample_rate };
        } else if tag == DATA_TAG {
            return read_data(wr, metadata, size);
        } else {
            wr.skip_bytes(size);
        }
    }
}

impl WavReader {
    /// Decodes the whole file: the `RIFF` and `WAVE` tags, then the chunks.
    pub fn read(self) -> (r: Result<WavData, WavError>)
        requires
            self.pos == 0,
        ensures
            decodes(self.bytes@, r),
    {
        let mut wr = self;
        let tag = match wr.read_u32() {
            Ok(t) => t,
            Err(e) => {
                return Err(e);
            },
        };
        if tag != RIFF_TAG {
            return Err(WavError::Format);
        }
        wr.skip_bytes(4);
        let tag = match wr.read_u32() {
            Ok(t) => t,
            Err(e) => {
                return Err(e);
            },
        };
        if tag != WAVE_TAG {
            return Err(WavError::Format);
        }
        wr.format = WavFormat::FLOAT;
        wr.bit_depth = 32;
        read_chunks(wr, AudioMetadata { channels: 2, sample_rate: 44100 })
    }
}

/// The words of `b[start..end]`.
fn decode_words(b: &Vec<u8>, start: usize, end: usize) -> (r: Vec<u32>)
    requires
        start <= end <= b@.len(),
    ensures
        r@ == words_of(b@.subrange(start as int, end as int)),
{
    let ghost d = b@.subrange(start as int, end as int);
    let n = (end - start) / 4;
    let mut r: Vec<u32> = Vec::new();
    let mut i: usize = 0;
    while i < n
        invariant
            start <= end <= b@.len(),
            d == b@.subrange(start as int, end as int),
            n == d.len() / 4,
            i <= n,
            r@ =~= words_of(d).subrange(0, i as int),
        decreases n - i,
    {
        let p = start + 4 * i;
        let v = b[p] as u32 + 256 * (b[p + 1] as u32) + 65536 * (b[p + 2] as u32) + 16777216 * (
        b[p + 3] as u32);
        assert(v == u32_at(d, 4 * i));
        r.push(v);
        i = i + 1;
    }
    r
}

/// The 16-bit integers of `b[start..end]`.
fn decode_pcm16(b: &Vec<u8>, start: usize, end: usize) -> (r: Vec<i16>)
    requires
        start <= end <= b@.len(),
    ensures
        r@ == pcm16_of(b@.subrange(start as int, end as int)),
{
    let ghost d = b@.subrange(start as int, end as int);
    let n = (end - start) / 2;
    let mut r: Vec<i16> = Vec::new();
    let mut i: usize = 0;
    while i < n
        invariant
            start <= end <= b@.len(),
            d == b@.subrange(start as int, end as int),
            n == d.len() / 2,
            i <= n,
            r@ =~= pcm16_of(d).subrange(0, i as int),
        decreases n - i,
    {
        let p = start + 2 * i;
        let lo = b[p] as i16;
        let hi = b[p + 1];
        let v: i16 = if hi >= 128 {
            (hi as i16 - 256) * 256 + lo
        } else {
            (hi as i16) * 256 + lo
        };
        assert(v == i16_at(d, 2 * i));
        r.push(v);
        i = i + 1;
    }
    r
}

/// The 24-bit integers of `b[start..end]`, each times 256.
fn decode_pcm24(b: &Vec<u8>, start: usize, end: usize) -> (r: Vec<i32>)
    requires
        start <= end <= b@.len(),
    ensures
        r@ == pcm24_of(b@.subrange(start as int, end as int)),
{
    let ghost d = b@.subrange(start as int, end as int);
    let n = (end - start) / 3;
    let mut r: Vec<i32> = Vec::new();
    let mut i: usize = 0;
    while i < n
        invariant
            start <= end <= b@.len(),
            d == b@.subrange(start as int, end as int),
            n == d.len() / 3,
            i <= n,
            r@ =~= pcm24_of(d).subrange(0, i as int),
        decreases n - i,
    {
        let p = start + 3 * i;
        let low = 256 * (b[p] as i32) + 65536 * (b[p + 1] as i32);
        let top = b[p + 2];
        let v: i32 = if top >= 128 {
            (top as i32 - 256) * 16777216 + low
        } else {
            (top as i32) * 16777216 + low
        };
        assert(v == i24_at(d, 3 * i));
        r.push(v);
        i = i + 1;
    }
    r
}

/// Decodes the `data` chunk whose length field has just been read.
fn read_data(wr: WavReader, metadata: AudioMetadata, length: u32) -> (r: Result<WavData, WavError>)
    requires
        wr.pos <= wr.bytes@.len(),
    ensures
        ({
            let l = Layout { metadata, format: wr.format, bit_depth: wr.bit_depth };
            let end = skip(wr.bytes@, wr.pos as int, length as int);
            let d = wr.bytes@.subrange(wr.pos as int, end);
            if supported(wr.format, wr.bit_depth) {
                match r {
                    Ok(v) => v.metadata == metadata && samples_decode(
                        v.samples,
                        wr.format,
                        wr.bit_depth,
                        d,
                    ),
                    Err(_) => false,
                }
            } else {
                r == Err::<WavData, WavError>(WavError::UnsupportedEncoding)
            }
        }),
{
    let start = wr.pos;
    let end = if (length as usize) < wr.bytes.len() - start {
        start + length as usize
    } else {
        wr.bytes.len()
    };
    match wr.format {
        WavFormat::FLOAT => {
            if wr.bit_depth != 32 {
                return Err(WavError::UnsupportedEncoding);
            }
            Ok(WavData { metadata, samples: Samples::Float32(decode_words(&wr.bytes, start, end)) })
        },
        WavFormat::PCM => {
            if wr.bit_depth == 16 {
                Ok(WavData { metadata, samples: Samples::Pcm16(decode_pcm16(&wr.bytes, start, end)) })
            } else if wr.bit_depth == 24 {
                Ok(WavData { metadata, samples: Samples::Pcm24(decode_pcm24(&wr.bytes, start, end)) })
            } else {
                Err(WavError::UnsupportedEncoding)
            }
        },
    }
}

} // verus!
