use vstd::prelude::*;

verus! {

/// Channel layout and rate of a buffer of interleaved samples.
#[derive(Clone, Copy, Debug, PartialEq, Eq, Structural)]
pub struct AudioMetadata {
    pub channels: u16,
    pub sample_rate: u32,
}

/// Sample encodings of the container's `fmt ` chunk.
#[allow(non_camel_case_types)]
#[derive(Clone, Copy, Debug, PartialEq, Eq, Structural)]
pub enum WavFormat {
    PCM,
    FLOAT,
}

/// Interleaved samples with their metadata, generic over the sample type.
#[derive(Clone, Debug)]
pub struct AudioBuffer<S> {
    pub metadata: AudioMetadata,
    pub data: Vec<S>,
}

/// Where a sample stands with respect to zero: a zero sample is both
/// non-negative and non-positive.
#[derive(Clone, Copy, Debug, PartialEq, Eq, Structural)]
pub enum Sign {
    Negative,
    Zero,
    Positive,
}

impl Sign {
    pub open spec fn spec_non_negative(self) -> bool {
        self != Sign::Negative
    }

    pub open spec fn spec_non_positive(self) -> bool {
        self != Sign::Positive
    }

    pub fn is_non_negative(&self) -> (r: bool)
        ensures
            r == self.spec_non_negative(),
    {
        !matches!(self, Sign::Negative)
    }

    pub fn is_non_positive(&self) -> (r: bool)
        ensures
            r == self.spec_non_positive(),
    {
        !matches!(self, Sign::Positive)
    }
}

/// Size in bytes of the `fmt ` chunk's body as written by the encoder.
pub const FMT_CHUNK_SIZE: u32 = 16;

/// The RIFF size field that the encoder writes for `n` 32-bit samples: the
/// `WAVE` tag, the `fmt ` chunk and the `data` chunk header, then the samples.
pub open spec fn riff_size(n: nat) -> int {
    4 + 20 + 8 + 4 * (n as int)
}

impl<S> AudioBuffer<S> {
    /// The RIFF size field of this buffer once encoded as 32-bit float samples.
    pub fn file_size(&self) -> (r: u32)
        requires
            riff_size(self.data@.len()) <= u32::MAX,
        ensures
            r == riff_size(self.data@.len()),
    {
        let n = self.data.len() as u32;
        assert(n == self.data@.len());
        4 + 20 + 8 + 4 * n
    }
}

} // verus!
