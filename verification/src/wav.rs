//! The container format: canonical uncompressed PCM, mono, 16 bits per sample,
//! little-endian, with a fixed 44-byte header.

use vstd::prelude::*;
use crate::error::AudioError;

verus! {

/// Length of the fixed header in bytes.
pub const HEADER_LEN: usize = 44;

/// The two bytes of `x`, least significant first.
pub open spec fn u16_le(x: u16) -> Seq<u8> {
    seq![(x % 256) as u8, (x / 256) as u8]
}

/// The four bytes of `x`, least significant first.
pub open spec fn u32_le(x: u32) -> Seq<u8> {
    seq![
        (x % 256) as u8,
        (x / 256 % 256) as u8,
        (x / 65536 % 256) as u8,
        (x / 16777216) as u8,
    ]
}

/// The two's-complement bit pattern of a sample, as an unsigned number.
pub open spec fn sample_bits(x: i16) -> u16 {
    if x < 0 {
        (x + 65536) as u16
    } else {
        x as u16
    }
}

/// The payload: every sample as two little-endian bytes, in order.
pub open spec fn pcm_bytes(samples: Seq<i16>) -> Seq<u8> {
    Seq::new(2 * samples.len(), |i: int| u16_le(sample_bits(samples[i / 2]))[i % 2])
}

/// The group tag that opens the container.
pub open spec fn riff_tag() -> Seq<u8> {
    seq![0x52u8, 0x49u8, 0x46u8, 0x46u8]
}

/// The format tag that follows the size field.
pub open spec fn wave_tag() -> Seq<u8> {
    seq![0x57u8, 0x41u8, 0x56u8, 0x45u8]
}

/// The tag of the format-description sub-block.
pub open spec fn fmt_tag() -> Seq<u8> {
    seq![0x66u8, 0x6du8, 0x74u8, 0x20u8]
}

/// The tag of the data sub-block.
pub open spec fn data_tag() -> Seq<u8> {
    seq![0x64u8, 0x61u8, 0x74u8, 0x61u8]
}

/// Whether every size field of the header fits in its 32 bits.
pub open spec fn wav_encodable(sample_count: nat, sample_rate: u32) -> bool {
    36 + 2 * sample_count <= u32::MAX && 2 * sample_rate <= u32::MAX
}

/// The 44 header bytes for `sample_count` samples at `sample_rate` hertz.
pub open spec fn wav_header(sample_count: nat, sample_rate: u32) -> Seq<u8>
    recommends
        wav_encodable(sample_count, sample_rate),
{
    riff_tag() + u32_le((36 + 2 * sample_count) as u32) + wave_tag() + fmt_tag() + u32_le(16)
        + u16_le(1) + u16_le(1) + u32_le(sample_rate) + u32_le((2 * sample_rate) as u32) + u16_le(
        2,
    ) + u16_le(16) + data_tag() + u32_le((2 * sample_count) as u32)
}

/// The whole container: header, then payload.
pub open spec fn wav_bytes(samples: Seq<i16>, sample_rate: u32) -> Seq<u8>
    recommends
        wav_encodable(samples.len(), sample_rate),
{
    wav_header(samples.len(), sample_rate) + pcm_bytes(samples)
}

fn push_u16_le(out: &mut Vec<u8>, x: u16)
    ensures
        final(out)@ == old(out)@ + u16_le(x),
{
    out.push((x % 256) as u8);
    out.push((x / 256) as u8);
    assert(out@ =~= old(out)@ + u16_le(x));
}

fn push_u32_le(out: &mut Vec<u8>, x: u32)
    ensures
        final(out)@ == old(out)@ + u32_le(x),
{
    out.push((x % 256) as u8);
    out.push((x / 256 % 256) as u8);
    out.push((x / 65536 % 256) as u8);
    out.push((x / 16777216) as u8);
    assert(out@ =~= old(out)@ + u32_le(x));
}

fn push_tag(out: &mut Vec<u8>, a: u8, b: u8, c: u8, d: u8)
    ensures
        final(out)@ == old(out)@ + seq![a, b, c, d],
{
    out.push(a);
    out.push(b);
    out.push(c);
    out.push(d);
    assert(out@ =~= old(out)@ + seq![a, b, c, d]);
}

fn sample_to_bits(x: i16) -> (u: u16)
    ensures
        u == sample_bits(x),
{
    if x < 0 {
        (x as i32 + 65536) as u16
    } else {
        x as u16
    }
}

/// Encodes `samples` at `sample_rate` hertz as a container.
///
/// Fails exactly when a size field of the header would not fit in 32 bits.
pub fn encode_wav(samples: &[i16], sample_rate: u32) -> (r: Result<Vec<u8>, AudioError>)
    ensures
        wav_encodable(samples@.len(), sample_rate) ==> r is Ok && r->Ok_0@ == wav_bytes(
            samples@,
            sample_rate,
        ),
        !wav_encodable(samples@.len(), sample_rate) ==> r == Err::<Vec<u8>, AudioError>(
            AudioError::EncodingFailure,
        ),
        r is Ok ==> r->Ok_0@.len() == HEADER_LEN + 2 * samples@.len(),
{
    let n = samples.len();
    if n > (u32::MAX as usize - 36) / 2 || sample_rate > u32::MAX / 2 {
        return Err(AudioError::EncodingFailure);
    }
    let data_size: u32 = (n * 2) as u32;
    let mut out: Vec<u8> = Vec::new();
    push_tag(&mut out, 0x52, 0x49, 0x46, 0x46);
    push_u32_le(&mut out, 36 + data_size);
    push_tag(&mut out, 0x57, 0x41, 0x56, 0x45);
    push_tag(&mut out, 0x66, 0x6d, 0x74, 0x20);
    push_u32_le(&mut out, 16);
    push_u16_le(&mut out, 1);
    push_u16_le(&mut out, 1);
    push_u32_le(&mut out, sample_rate);
    push_u32_le(&mut out, sample_rate * 2);
    push_u16_le(&mut out, 2);
    push_u16_le(&mut out, 16);
    push_tag(&mut out, 0x64, 0x61, 0x74, 0x61);
    push_u32_le(&mut out, data_size);
    assert(out@ =~= wav_header(n as nat, sample_rate));
    let mut i: usize = 0;
    while i < n
        invariant
            i <= n,
            n == samples@.len(),
            out@ =~= wav_header(n as nat, sample_rate) + pcm_bytes(samples@.subrange(0, i as int)),
            out@.len() == HEADER_LEN + 2 * i,
        decreases n - i,
    {
        push_u16_le(&mut out, sample_to_bits(samples[i]));
        i += 1;
        assert(pcm_bytes(samples@.subrange(0, i as int)) =~= pcm_bytes(
            samples@.subrange(0, i as int - 1),
        ) + u16_le(sample_bits(samples@[i as int - 1])));
    }
    assert(samples@.subrange(0, n as int) =~= samples@);
    Ok(out)
}

/// What the fixed header of a container says about its payload.
#[derive(Debug, Clone, Copy, PartialEq, Eq, Structural)]
pub struct WavHeader {
    pub channels: u16,
    pub sample_rate: u32,
    pub bits_per_sample: u16,
    pub data_size: u32,
}

/// The number whose little-endian bytes are `bytes[at]` and `bytes[at + 1]`.
pub open spec fn u16_at(bytes: Seq<u8>, at: int) -> u16 {
    (bytes[at] + 256 * bytes[at + 1]) as u16
}

/// The number whose little-endian bytes are `bytes[at]` to `bytes[at + 3]`.
pub open spec fn u32_at(bytes: Seq<u8>, at: int) -> u32 {
    (bytes[at] + 256 * bytes[at + 1] + 65536 * bytes[at + 2] + 16777216 * bytes[at + 3]) as u32
}

/// Whether `bytes` opens with the four tags and the fixed format fields of a
/// PCM container, each at its place.
pub open spec fn has_pcm_header(bytes: Seq<u8>) -> bool {
    &&& bytes.len() >= HEADER_LEN
    &&& bytes.subrange(0, 4) == riff_tag()
    &&& bytes.subrange(8, 12) == wave_tag()
    &&& bytes.subrange(12, 16) == fmt_tag()
    &&& u32_at(bytes, 16) == 16
    &&& u16_at(bytes, 20) == 1
    &&& bytes.subrange(36, 40) == data_tag()
}

/// The header fields of `bytes`, where it has a PCM header.
pub open spec fn parsed_header(bytes: Seq<u8>) -> Option<WavHeader> {
    if has_pcm_header(bytes) {
        Some(
            WavHeader {
                channels: u16_at(bytes, 22),
                sample_rate: u32_at(bytes, 24),
                bits_per_sample: u16_at(bytes, 34),
                data_size: u32_at(bytes, 40),
            },
        )
    } else {
        None
    }
}

fn read_u16_le(bytes: &[u8], at: usize) -> (x: u16)
    requires
        at + 2 <= bytes@.len(),
    ensures
        x == u16_at(bytes@, at as int),
{
    bytes[at] as u16 + 256 * (bytes[at + 1] as u16)
}

fn read_u32_le(bytes: &[u8], at: usize) -> (x: u32)
    requires
        at + 4 <= bytes@.len(),
    ensures
        x == u32_at(bytes@, at as int),
{
    bytes[at] as u32 + 256 * (bytes[at + 1] as u32) + 65536 * (bytes[at + 2] as u32) + 16777216
        * (bytes[at + 3] as u32)
}

fn has_tag(bytes: &[u8], at: usize, a: u8, b: u8, c: u8, d: u8) -> (found: bool)
    requires
        at + 4 <= bytes@.len(),
    ensures
        found == (bytes@.subrange(at as int, at + 4) == seq![a, b, c, d]),
{
    let found = bytes[at] == a && bytes[at + 1] == b && bytes[at + 2] == c && bytes[at + 3] == d;
    proof {
        let part = bytes@.subrange(at as int, at + 4);
        if found {
            assert(part =~= seq![a, b, c, d]);
        } else {
            assert(part[0] == bytes@[at as int]);
            assert(part[1] == bytes@[at + 1]);
            assert(part[2] == bytes@[at + 2]);
            assert(part[3] == bytes@[at + 3]);
        }
    }
    found
}

/// Reads the header of a container.
///
/// Gives the fields exactly when `bytes` has a PCM header; the payload is not read.
pub fn parse_wav_header(bytes: &[u8]) -> (r: Option<WavHeader>)
    ensures
        r == parsed_header(bytes@),
{
    if bytes.len() < HEADER_LEN {
        return None;
    }
    if !has_tag(bytes, 0, 0x52, 0x49, 0x46, 0x46) || !has_tag(bytes, 8, 0x57, 0x41, 0x56, 0x45)
        || !has_tag(bytes, 12, 0x66, 0x6d, 0x74, 0x20) || !has_tag(
        bytes,
        36,
        0x64,
        0x61,
        0x74,
        0x61,
    ) {
        return None;
    }
    if read_u32_le(bytes, 16) != 16 || read_u16_le(bytes, 20) != 1 {
        return None;
    }
    Some(
        WavHeader {
            channels: read_u16_le(bytes, 22),
            sample_rate: read_u32_le(bytes, 24),
            bits_per_sample: read_u16_le(bytes, 34),
            data_size: read_u32_le(bytes, 40),
        },
    )
}

/// Reading back two little-endian bytes gives the number that was written.
pub proof fn lemma_u16_le_read_back(bytes: Seq<u8>, at: int, x: u16)
    requires
        0 <= at,
        at + 2 <= bytes.len(),
        bytes.subrange(at, at + 2) == u16_le(x),
    ensures
        u16_at(bytes, at) == x,
{
    let part = bytes.subrange(at, at + 2);
    assert(part[0] == bytes[at]);
    assert(part[1] == bytes[at + 1]);
}

/// Reading back four little-endian bytes gives the number that was written.
pub proof fn lemma_u32_le_read_back(bytes: Seq<u8>, at: int, x: u32)
    requires
        0 <= at,
        at + 4 <= bytes.len(),
        bytes.subrange(at, at + 4) == u32_le(x),
    ensures
        u32_at(bytes, at) == x,
{
    let part = bytes.subrange(at, at + 4);
    assert(part[0] == bytes[at]);
    assert(part[1] == bytes[at + 1]);
    assert(part[2] == bytes[at + 2]);
    assert(part[3] == bytes[at + 3]);
}

/// The header of an encoded container gives back what went in: one channel,
/// the sample rate, 16 bits per sample, and a payload of two bytes per sample.
pub proof fn lemma_header_round_trip(samples: Seq<i16>, sample_rate: u32)
    requires
        wav_encodable(samples.len(), sample_rate),
    ensures
        parsed_header(wav_bytes(samples, sample_rate)) == Some(
            WavHeader {
                channels: 1,
                sample_rate,
                bits_per_sample: 16,
                data_size: (2 * samples.len()) as u32,
            },
        ),
        wav_bytes(samples, sample_rate).len() == HEADER_LEN + 2 * samples.len(),
{
    let bytes = wav_bytes(samples, sample_rate);
    let size = (2 * samples.len()) as u32;
    assert(bytes.subrange(0, 4) =~= riff_tag());
    assert(bytes.subrange(8, 12) =~= wave_tag());
    assert(bytes.subrange(12, 16) =~= fmt_tag());
    assert(bytes.subrange(36, 40) =~= data_tag());
    assert(bytes.subrange(16, 20) =~= u32_le(16));
    assert(bytes.subrange(20, 22) =~= u16_le(1));
    assert(bytes.subrange(22, 24) =~= u16_le(1));
    assert(bytes.subrange(24, 28) =~= u32_le(sample_rate));
    assert(bytes.subrange(34, 36) =~= u16_le(16));
    assert(bytes.subrange(40, 44) =~= u32_le(size));
    lemma_u32_le_read_back(bytes, 16, 16);
    lemma_u16_le_read_back(bytes, 20, 1);
    lemma_u16_le_read_back(bytes, 22, 1);
    lemma_u32_le_read_back(bytes, 24, sample_rate);
    lemma_u16_le_read_back(bytes, 34, 16);
    lemma_u32_le_read_back(bytes, 40, size);
}

} // verus!
