//! WAV files.
use crate::wire;
use crate::wire::{read_u16_le, read_u32_le};
use vstd::prelude::*;

verus! {

/// What a WAV file says of its samples.
#[derive(Debug, Clone, Copy, PartialEq, Eq, Structural)]
pub struct WavHeader {
    pub file_size: u32,
    pub audio_format: u16,
    pub num_channels: u16,
    pub sample_rate: u32,
    pub bits_per_sample: u16,
    pub data_size: u32,
}

/// Why bytes are not a WAV file that can be read.
#[derive(Debug, Clone, Copy, PartialEq, Eq, Structural)]
pub enum WavError {
    /// There are not four bytes.
    NoRiff,
    /// The first four bytes are not `RIFF`.
    NotRiff,
    /// The bytes end inside a field or a format chunk.
    Truncated,
    /// The third four bytes are not `WAVE`.
    NotWave,
    /// There is no data chunk.
    NoData,
    /// The format chunk has fewer than 16 bytes.
    ShortFormat,
    /// A sample has no bits.
    ZeroDepth,
    /// A sample has fewer than eight bits.
    NoWholeSample,
    /// The bytes end inside the samples.
    SamplesMissing,
}

/// Whether the bytes at an index are the given ones.
pub open spec fn tag_at(b: Seq<u8>, at: int, tag: Seq<u8>) -> bool {
    b.subrange(at, at + 4) == tag
}

/// `RIFF`
pub open spec fn riff_tag() -> Seq<u8> {
    seq![82u8, 73u8, 70u8, 70u8]
}

/// `WAVE`
pub open spec fn wave_tag() -> Seq<u8> {
    seq![87u8, 65u8, 86u8, 69u8]
}

/// `fmt `
pub open spec fn fmt_tag() -> Seq<u8> {
    seq![102u8, 109u8, 116u8, 32u8]
}

/// `data`
pub open spec fn data_tag() -> Seq<u8> {
    seq![100u8, 97u8, 116u8, 97u8]
}

/// A header with the format that a chunk at an index gives.
pub open spec fn with_format(h: WavHeader, b: Seq<u8>, at: int) -> WavHeader {
    WavHeader {
        audio_format: wire::le16(b, at) as u16,
        num_channels: wire::le16(b, at + 2) as u16,
        sample_rate: wire::le32(b, at + 4) as u32,
        bits_per_sample: wire::le16(b, at + 14) as u16,
        ..h
    }
}

/// What the chunks from an index on give: the header, and where the samples begin.
pub open spec fn chunks(b: Seq<u8>, pos: nat, h: WavHeader) -> Result<(WavHeader, nat), WavError>
    decreases
        if pos < b.len() {
            b.len() - pos
        } else {
            0
        },
{
    if pos + 4 > b.len() {
        Err(WavError::NoData)
    } else if pos + 8 > b.len() {
        Err(WavError::Truncated)
    } else {
        let size = wire::le32(b, pos as int + 4);
        if tag_at(b, pos as int, fmt_tag()) {
            if pos + 8 + size > b.len() {
                Err(WavError::Truncated)
            } else if size < 16 {
                Err(WavError::ShortFormat)
            } else {
                chunks(b, (pos + 8 + size) as nat, with_format(h, b, pos as int + 8))
            }
        } else if tag_at(b, pos as int, data_tag()) {
            Ok((WavHeader { data_size: size as u32, ..h }, pos + 8))
        } else {
            chunks(b, (pos + 8 + size) as nat, h)
        }
    }
}

/// The header before any chunk was read.
pub open spec fn blank_header() -> WavHeader {
    WavHeader {
        file_size: 0,
        audio_format: 0,
        num_channels: 0,
        sample_rate: 0,
        bits_per_sample: 0,
        data_size: 0,
    }
}

/// What the bytes of a WAV file hold: the header, and where the samples begin.
pub open spec fn parsed(b: Seq<u8>) -> Result<(WavHeader, nat), WavError> {
    if b.len() < 4 {
        Err(WavError::NoRiff)
    } else if !tag_at(b, 0, riff_tag()) {
        Err(WavError::NotRiff)
    } else if b.len() < 12 {
        Err(WavError::Truncated)
    } else if !tag_at(b, 8, wave_tag()) {
        Err(WavError::NotWave)
    } else {
        match chunks(b, 12, blank_header()) {
            Err(e) => Err(e),
            Ok((h, at)) => if h.bits_per_sample == 0 {
                Err(WavError::ZeroDepth)
            } else if h.bits_per_sample < 8 {
                Err(WavError::NoWholeSample)
            } else if at + 2 * sample_count(h) > b.len() {
                Err(WavError::SamplesMissing)
            } else {
                Ok((h, at))
            },
        }
    }
}

/// The number of samples that a header announces.
pub open spec fn sample_count(h: WavHeader) -> int {
    h.data_size as int / (h.bits_per_sample as int / 8)
}

/// Two bytes as a signed sample, low byte first.
pub open spec fn sample_at(b: Seq<u8>, at: int) -> int {
    let u = wire::le16(b, at);
    if u < 0x8000 {
        u as int
    } else {
        u - 0x1_0000
    }
}

fn has_tag(b: &[u8], at: usize, a: u8, c: u8, d: u8, e: u8) -> (r: bool)
    requires
        at + 4 <= b@.len(),
    ensures
        r == tag_at(b@, at as int, seq![a, c, d, e]),
{
    let r = b[at] == a && b[at + 1] == c && b[at + 2] == d && b[at + 3] == e;
    proof {
        let s = b@.subrange(at as int, at + 4);
        assert(s[0] == b@[at as int] && s[1] == b@[at + 1] && s[2] == b@[at + 2] && s[3] == b@[at
            + 3]);
        if r {
            assert(s =~= seq![a, c, d, e]);
        }
        let want = seq![a, c, d, e];
        assert(want[0] == a && want[1] == c && want[2] == d && want[3] == e);
    }
    r
}

fn read_chunks(b: &[u8]) -> (r: Result<(WavHeader, usize), WavError>)
    requires
        b@.len() >= 12,
    ensures
        match r {
            Ok((h, at)) => chunks(b@, 12, blank_header()) == Ok::<(WavHeader, nat), WavError>(
                (h, at as nat),
            ) && at <= b@.len(),
            Err(e) => chunks(b@, 12, blank_header()) == Err::<(WavHeader, nat), WavError>(e),
        },
{
    let mut h = WavHeader {
        file_size: 0,
        audio_format: 0,
        num_channels: 0,
        sample_rate: 0,
        bits_per_sample: 0,
        data_size: 0,
    };
    let n: usize = b.len();
    let mut pos: usize = 12;
    loop
        invariant
            n == b@.len(),
            12 <= pos <= n,
            chunks(b@, pos as nat, h) == chunks(b@, 12, blank_header()),
        decreases n - pos,
    {
        if n - pos < 4 {
            return Err(WavError::NoData);
        }
        if n - pos < 8 {
            return Err(WavError::Truncated);
        }
        let size = read_u32_le(b, pos + 4);
        let left: usize = n - (pos + 8);
        if has_tag(b, pos, 102, 109, 116, 32) {
            if size as usize > left {
                return Err(WavError::Truncated);
            }
            if size < 16 {
                return Err(WavError::ShortFormat);
            }
            h = WavHeader {
                audio_format: read_u16_le(b, pos + 8),
                num_channels: read_u16_le(b, pos + 10),
                sample_rate: read_u32_le(b, pos + 12),
                bits_per_sample: read_u16_le(b, pos + 22),
                ..h
            };
            pos = pos + 8 + size as usize;
        } else if has_tag(b, pos, 100, 97, 116, 97) {
            h.data_size = size;
            return Ok((h, pos + 8));
        } else {
            if size as usize > left {
                assert(chunks(b@, (pos + 8 + size) as nat, h) == Err::<(WavHeader, nat), WavError>(
                    WavError::NoData,
                ));
                return Err(WavError::NoData);
            }
            pos = pos + 8 + size as usize;
        }
    }
}

impl WavHeader {
    /// Reads the bytes of a WAV file: the header and the samples.
    pub fn parse(b: &[u8]) -> (r: Result<(WavHeader, Vec<i16>), WavError>)
        ensures
            match r {
                Ok((h, samples)) => {
                    &&& parsed(b@) matches Ok((h2, at))
                    &&& h == h2
                    &&& samples@.len() == sample_count(h)
                    &&& forall|i: int|
                        0 <= i < samples@.len() ==> #[trigger] samples@[i] == sample_at(
                            b@,
                            at + 2 * i,
                        )
                },
                Err(e) => parsed(b@) == Err::<(WavHeader, nat), WavError>(e),
            },
    {
        let n: usize = b.len();
        if n < 4 {
            return Err(WavError::NoRiff);
        }
        if !has_tag(b, 0, 82, 73, 70, 70) {
            return Err(WavError::NotRiff);
        }
        if n < 12 {
            return Err(WavError::Truncated);
        }
        if !has_tag(b, 8, 87, 65, 86, 69) {
            return Err(WavError::NotWave);
        }
        match read_chunks(b) {
            Err(e) => Err(e),
            Ok((h, at)) => {
                if h.bits_per_sample == 0 {
                    return Err(WavError::ZeroDepth);
                }
                if h.bits_per_sample < 8 {
                    return Err(WavError::NoWholeSample);
                }
                let count: u32 = h.data_size / (h.bits_per_sample as u32 / 8);
                if count as usize > (n - at) / 2 {
                    return Err(WavError::SamplesMissing);
                }
                let mut samples: Vec<i16> = Vec::new();
                let mut i: u32 = 0;
                while i < count
                    invariant
                        n == b@.len(),
                        i <= count,
                        at + 2 * count <= n,
                        samples@.len() == i,
                        forall|k: int|
                            0 <= k < i ==> #[trigger] samples@[k] == sample_at(b@, at + 2 * k),
                    decreases count - i,
                {
                    let u = read_u16_le(b, at + 2 * i as usize);
                    let s: i16 = if u < 0x8000 {
                        u as i16
                    } else {
                        (u as i32 - 0x1_0000) as i16
                    };
                    samples.push(s);
                    i += 1;
                }
                Ok((h, samples))
            },
        }
    }
}

} // verus!
