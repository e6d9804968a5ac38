//! PCM16 RIFF/WAVE encoding.

use vstd::prelude::*;

verus! {

/// `x` as two little-endian bytes.
pub open spec fn le16(x: u16) -> Seq<u8> {
    seq![(x % 256) as u8, (x / 256) as u8]
}

/// `x` as four little-endian bytes.
pub open spec fn le32(x: u32) -> Seq<u8> {
    seq![(x % 256) as u8, ((x / 256) % 256) as u8, ((x / 65536) % 256) as u8, (x / 16777216) as u8]
}

/// The 16-bit two's complement word of a sample.
pub open spec fn word_of(x: i16) -> u16 {
    (if x < 0 {
        x + 65536
    } else {
        x as int
    }) as u16
}

fn word_exec(x: i16) -> (r: u16)
    ensures
        r == word_of(x),
{
    if x < 0 {
        (x as i32 + 65536) as u16
    } else {
        x as u16
    }
}

/// The samples as little-endian 16-bit two's complement words, in order.
pub open spec fn pcm_bytes(samples: Seq<i16>) -> Seq<u8>
    decreases samples.len(),
{
    if samples.len() == 0 {
        Seq::empty()
    } else {
        pcm_bytes(samples.drop_last()) + le16(word_of(samples.last()))
    }
}

/// The 44-byte header of a PCM16 WAV file with `data_len` bytes of samples.
pub open spec fn wav_header(data_len: u32, rate: u32, channels: u16) -> Seq<u8> {
    seq![0x52u8, 0x49u8, 0x46u8, 0x46u8] + le32((36 + data_len) as u32) + seq![
        0x57u8,
        0x41u8,
        0x56u8,
        0x45u8,
    ] + seq![0x66u8, 0x6du8, 0x74u8, 0x20u8] + le32(16) + le16(1) + le16(channels) + le32(rate)
        + le32((rate * channels * 2) as u32) + le16((channels * 2) as u16) + le16(16) + seq![
        0x64u8,
        0x61u8,
        0x74u8,
        0x61u8,
    ] + le32(data_len)
}

/// The largest sample data a WAV file can describe.
pub const MAX_WAV_DATA: usize = 0xffff_ffdb;

/// A whole WAV file for the samples.
pub open spec fn wav_file(samples: Seq<i16>, rate: u32, channels: u16) -> Seq<u8> {
    wav_header((samples.len() * 2) as u32, rate, channels) + pcm_bytes(samples)
}

/// Whether the format fields of a WAV file can hold this rate and channel
/// count: the byte rate fits 32 bits and the block alignment 16 bits.
pub open spec fn wav_format_fits(rate: u32, channels: u16) -> bool {
    rate * channels * 2 <= u32::MAX && channels * 2 <= u16::MAX
}

fn push_le16(out: &mut Vec<u8>, x: u16)
    ensures
        final(out)@ == old(out)@ + le16(x),
{
    out.push((x % 256) as u8);
    out.push((x / 256) as u8);
    proof {
        assert(final(out)@ =~= old(out)@ + le16(x));
    }
}

fn push_le32(out: &mut Vec<u8>, x: u32)
    ensures
        final(out)@ == old(out)@ + le32(x),
{
    out.push((x % 256) as u8);
    out.push(((x / 256) % 256) as u8);
    out.push(((x / 65536) % 256) as u8);
    out.push((x / 16777216) as u8);
    proof {
        assert(final(out)@ =~= old(out)@ + le32(x));
    }
}

fn push_tag(out: &mut Vec<u8>, a: u8, b: u8, c: u8, d: u8)
    ensures
        final(out)@ == old(out)@ + seq![a, b, c, d],
{
    out.push(a);
    out.push(b);
    out.push(c);
    out.push(d);
    proof {
        assert(final(out)@ =~= old(out)@ + seq![a, b, c, d]);
    }
}

/// Encodes interleaved 16-bit samples as a PCM WAV file; fails with
/// `ClipTooLarge` exactly when the sample data does not fit the 32-bit size
/// fields of the header.
pub fn encode_wav_i16(samples: &[i16], sample_rate: u32, channels: u16) -> (r: Result<
    Vec<u8>,
    crate::error::ServiceError,
>)
    requires
        wav_format_fits(sample_rate, channels),
    ensures
        samples@.len() * 2 > u32::MAX - 36 <==> r is Err,
        r matches Err(e) ==> e == crate::error::ServiceError::ClipTooLarge,
        r matches Ok(bytes) ==> bytes@ == wav_file(samples@, sample_rate, channels),
{
    if samples.len() > MAX_WAV_DATA / 2 {
        return Err(crate::error::ServiceError::ClipTooLarge);
    }
    let data_len = (samples.len() * 2) as u32;
    let riff_size = 36 + data_len;
    let byte_rate = sample_rate * channels as u32 * 2;
    let block_align = channels * 2;
    let mut output: Vec<u8> = Vec::new();
    push_tag(&mut output, 0x52, 0x49, 0x46, 0x46);
    push_le32(&mut output, riff_size);
    push_tag(&mut output, 0x57, 0x41, 0x56, 0x45);
    push_tag(&mut output, 0x66, 0x6d, 0x74, 0x20);
    push_le32(&mut output, 16);
    push_le16(&mut output, 1);
    push_le16(&mut output, channels);
    push_le32(&mut output, sample_rate);
    push_le32(&mut output, byte_rate);
    push_le16(&mut output, block_align);
    push_le16(&mut output, 16);
    push_tag(&mut output, 0x64, 0x61, 0x74, 0x61);
    push_le32(&mut output, data_len);
    let ghost header = output@;
    assert(header == wav_header(data_len, sample_rate, channels));
    let mut i: usize = 0;
    while i < samples.len()
        invariant
            i <= samples@.len(),
            output@ == header + pcm_bytes(samples@.subrange(0, i as int)),
        decreases samples@.len() - i,
    {
        push_le16(&mut output, word_exec(samples[i]));
        proof {
            let pre = samples@.subrange(0, i + 1);
            assert(pre.drop_last() == samples@.subrange(0, i as int));
            assert(pre.last() == samples@[i as int]);
        }
        i = i + 1;
    }
    proof {
        assert(samples@.subrange(0, samples@.len() as int) == samples@);
    }
    Ok(output)
}

/// Every encoded file opens with `RIFF`, its RIFF size field is 36 plus
/// the data length, bytes 8 to 12 read `WAVE`, bytes 36 to 40 read `data`,
/// and the data length field counts two bytes per sample.
pub proof fn lemma_wav_layout(samples: Seq<i16>, rate: u32, channels: u16)
    requires
        samples.len() * 2 <= u32::MAX - 36,
    ensures
        ({
            let f = wav_file(samples, rate, channels);
            let data_len = (samples.len() * 2) as u32;
            &&& f.subrange(0, 4) == seq![0x52u8, 0x49u8, 0x46u8, 0x46u8]
            &&& f.subrange(4, 8) == le32((36 + data_len) as u32)
            &&& 36 + data_len == 36 + samples.len() * 2
            &&& f.subrange(8, 12) == seq![0x57u8, 0x41u8, 0x56u8, 0x45u8]
            &&& f.subrange(36, 40) == seq![0x64u8, 0x61u8, 0x74u8, 0x61u8]
            &&& f.subrange(40, 44) == le32(data_len)
            &&& f.len() == 44 + samples.len() * 2
        }),
{
    lemma_pcm_len(samples);
    let f = wav_file(samples, rate, channels);
    let data_len = (samples.len() * 2) as u32;
    let h = wav_header(data_len, rate, channels);
    assert(h.len() == 44);
    assert(f.subrange(0, 4) =~= seq![0x52u8, 0x49u8, 0x46u8, 0x46u8]);
    assert(f.subrange(4, 8) =~= le32((36 + data_len) as u32));
    assert(f.subrange(8, 12) =~= seq![0x57u8, 0x41u8, 0x56u8, 0x45u8]);
    assert(f.subrange(36, 40) =~= seq![0x64u8, 0x61u8, 0x74u8, 0x61u8]);
    assert(f.subrange(40, 44) =~= le32(data_len));
}

proof fn lemma_pcm_len(samples: Seq<i16>)
    ensures
        pcm_bytes(samples).len() == samples.len() * 2,
    decreases samples.len(),
{
    if samples.len() > 0 {
        lemma_pcm_len(samples.drop_last());
    }
}

} // verus!
