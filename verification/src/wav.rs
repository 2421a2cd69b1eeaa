//! RIFF/WAVE byte layout for mono 16-bit PCM: a 44-byte header, the sample
//! data, and an optional `LIST INFO` chunk of metadata after the data. The
//! float side (peak normalization and quantization to 16 bits) produces the
//! samples this module frames.

use vstd::prelude::*;
use vstd::utf8::encode_utf8;

verus! {

/// Optional metadata embedded in a `LIST INFO` chunk after the data chunk.
/// `software` populates `ISFT` (RIFF info software identifier); `comment`
/// populates `ICMT` (free-form comment).
#[derive(Clone, Debug, Default)]
pub struct WavMetadata<'a> {
    pub software: Option<&'a str>,
    pub comment: Option<&'a str>,
}

/// `x` as four little-endian bytes.
pub open spec fn le32(x: u32) -> Seq<u8> {
    seq![(x & 0xff) as u8, ((x >> 8u32) & 0xff) as u8, ((x >> 16u32) & 0xff) as u8, (x >> 24u32) as u8]
}

/// `x` as two little-endian bytes.
pub open spec fn le16(x: u16) -> Seq<u8> {
    seq![(x & 0xff) as u8, (x >> 8u16) as u8]
}

/// The UTF-8 bytes of an optional string, if present.
pub open spec fn opt_bytes(s: Option<&str>) -> Option<Seq<u8>> {
    match s {
        Some(s) => Some(encode_utf8(s@)),
        None => None,
    }
}

/// A RIFF sub-chunk: its four-byte id, its data length, the data, and a pad
/// byte when the length is odd.
pub open spec fn sub_chunk(id: Seq<u8>, data: Seq<u8>) -> Seq<u8> {
    id + le32(data.len() as u32) + data + (if data.len() % 2 == 1 { seq![0u8] } else { Seq::empty() })
}

pub open spec fn opt_sub_chunk(id: Seq<u8>, data: Option<Seq<u8>>) -> Seq<u8> {
    match data {
        Some(d) => sub_chunk(id, d),
        None => Seq::empty(),
    }
}

pub open spec fn isft() -> Seq<u8> {
    seq![73u8, 83, 70, 84]
}

pub open spec fn icmt() -> Seq<u8> {
    seq![73u8, 67, 77, 84]
}

/// The `LIST INFO` chunk for the given metadata bytes, or `None` when
/// there is no metadata.
pub open spec fn info_chunk(software: Option<Seq<u8>>, comment: Option<Seq<u8>>) -> Option<Seq<u8>> {
    if software is None && comment is None {
        None
    } else {
        let subs = opt_sub_chunk(isft(), software) + opt_sub_chunk(icmt(), comment);
        Some(seq![76u8, 73, 83, 84] + le32((4 + subs.len()) as u32) + seq![73u8, 78, 70, 79] + subs)
    }
}

/// Bytes a sub-chunk takes.
pub open spec fn sub_chunk_len(data: Option<Seq<u8>>) -> int {
    match data {
        Some(d) => (8 + d.len() + d.len() % 2) as int,
        None => 0,
    }
}

/// The metadata's chunk fits in memory.
pub open spec fn info_fits(meta: WavMetadata) -> bool {
    12 + sub_chunk_len(opt_bytes(meta.software)) + sub_chunk_len(opt_bytes(meta.comment)) <= usize::MAX
}

fn push_le32(out: &mut Vec<u8>, x: u32)
    ensures
        final(out)@ == old(out)@ + le32(x),
{
    out.push((x & 0xff) as u8);
    out.push(((x >> 8u32) & 0xff) as u8);
    out.push(((x >> 16u32) & 0xff) as u8);
    out.push((x >> 24u32) as u8);
    assert(final(out)@ =~= old(out)@ + le32(x));
}

fn push_le16(out: &mut Vec<u8>, x: u16)
    ensures
        final(out)@ == old(out)@ + le16(x),
{
    out.push((x & 0xff) as u8);
    out.push((x >> 8u16) as u8);
    assert(final(out)@ =~= old(out)@ + le16(x));
}

fn push_bytes(out: &mut Vec<u8>, data: &[u8])
    ensures
        final(out)@ == old(out)@ + data@,
{
    let ghost start = out@;
    let mut i: usize = 0;
    while i < data.len()
        invariant
            i <= data.len(),
            out@ == start + data@.take(i as int),
        decreases data.len() - i,
    {
        out.push(data[i]);
        assert(data@.take(i + 1) =~= data@.take(i as int).push(data@[i as int]));
        assert(out@ =~= start + data@.take(i + 1));
        i += 1;
    }
    assert(data@.take(data.len() as int) =~= data@);
}

fn push_sub_chunk(out: &mut Vec<u8>, id: &[u8; 4], data: &[u8])
    requires
        data@.len() <= usize::MAX,
    ensures
        final(out)@ == old(out)@ + sub_chunk(id@, data@),
{
    let ghost start = out@;
    push_bytes(out, id);
    push_le32(out, data.len() as u32);
    push_bytes(out, data);
    if data.len() % 2 == 1 {
        out.push(0);
    }
    assert(out@ =~= start + sub_chunk(id@, data@));
}

/// The `LIST INFO` chunk for `meta`, or `None` when it holds nothing.
pub fn build_info_chunk(meta: &WavMetadata) -> (r: Option<Vec<u8>>)
    requires
        info_fits(*meta),
    ensures
        match r {
            Some(v) => info_chunk(opt_bytes(meta.software), opt_bytes(meta.comment)) == Some(v@),
            None => info_chunk(opt_bytes(meta.software), opt_bytes(meta.comment)) is None,
        },
{
    if meta.software.is_none() && meta.comment.is_none() {
        return None;
    }
    let mut subs: Vec<u8> = Vec::new();
    if let Some(s) = meta.software {
        push_sub_chunk(&mut subs, &[73u8, 83, 70, 84], s.as_bytes());
    }
    let ghost after_software = subs@;
    if let Some(c) = meta.comment {
        push_sub_chunk(&mut subs, &[73u8, 67, 77, 84], c.as_bytes());
    }
    proof {
        assert([73u8, 83, 70, 84]@ =~= isft());
        assert([73u8, 67, 77, 84]@ =~= icmt());
        assert(after_software =~= opt_sub_chunk(isft(), opt_bytes(meta.software)));
        assert(subs@ =~= opt_sub_chunk(isft(), opt_bytes(meta.software)) + opt_sub_chunk(icmt(), opt_bytes(meta.comment)));
    }
    let mut out: Vec<u8> = Vec::new();
    push_bytes(&mut out, &[76u8, 73, 83, 84]);
    push_le32(&mut out, (4 + subs.len()) as u32);
    push_bytes(&mut out, &[73u8, 78, 70, 79]);
    push_bytes(&mut out, subs.as_slice());
    proof {
        assert([76u8, 73, 83, 84]@ =~= seq![76u8, 73, 83, 84]);
        assert([73u8, 78, 70, 79]@ =~= seq![73u8, 78, 70, 79]);
        assert(out@ =~= seq![76u8, 73, 83, 84] + le32((4 + subs@.len()) as u32) + seq![73u8, 78, 70, 79] + subs@);
    }
    Some(out)
}

/// 16-bit samples as little-endian bytes.
pub open spec fn pcm16(s: Seq<i16>) -> Seq<u8>
    decreases s.len(),
{
    if s.len() == 0 {
        Seq::empty()
    } else {
        pcm16(s.drop_last()) + le16(s.last() as u16)
    }
}

pub proof fn lemma_pcm16_len(s: Seq<i16>)
    ensures
        pcm16(s).len() == 2 * s.len(),
    decreases s.len(),
{
    if s.len() > 0 {
        lemma_pcm16_len(s.drop_last());
    }
}

/// The bytes of a mono 16-bit PCM RIFF/WAVE file at `sample_rate` holding
/// `samples`, with `info` (a `LIST` chunk, or nothing) after the data.
pub open spec fn wav_file(samples: Seq<i16>, sample_rate: u32, info: Seq<u8>) -> Seq<u8> {
    let data_bytes = 2 * samples.len();
    let total = 44 + data_bytes + info.len();
    seq![82u8, 73, 70, 70] + le32((total - 8) as u32) + seq![87u8, 65, 86, 69]
        + seq![102u8, 109, 116, 32] + le32(16) + le16(1) + le16(1) + le32(sample_rate) + le32((sample_rate * 2) as u32)
        + le16(2) + le16(16)
        + seq![100u8, 97, 116, 97] + le32(data_bytes as u32) + pcm16(samples)
        + info
}

/// The metadata chunk's bytes, empty when there is none.
pub open spec fn info_bytes(meta: Option<WavMetadata>) -> Seq<u8> {
    match meta {
        Some(m) => match info_chunk(opt_bytes(m.software), opt_bytes(m.comment)) {
            Some(c) => c,
            None => Seq::empty(),
        },
        None => Seq::empty(),
    }
}

pub open spec fn meta_fits(meta: Option<WavMetadata>) -> bool {
    match meta {
        Some(m) => info_fits(m),
        None => true,
    }
}

/// Frame 16-bit mono samples as a RIFF/WAVE file: header (`RIFF`, `WAVE`, a
/// 16-byte PCM `fmt ` chunk for one channel at `sample_rate`), the `data`
/// chunk, then the `LIST INFO` chunk when there is metadata.
pub fn encode_pcm16(samples: &[i16], sample_rate: u32, metadata: &Option<WavMetadata>) -> (r: Vec<u8>)
    requires
        sample_rate <= u32::MAX / 2,
        meta_fits(*metadata),
        44 + 2 * samples@.len() + info_bytes(*metadata).len() <= usize::MAX,
    ensures
        r@ == wav_file(samples@, sample_rate, info_bytes(*metadata)),
{
    let info: Option<Vec<u8>> = match metadata {
        Some(m) => build_info_chunk(m),
        None => None,
    };
    let info_len: usize = match &info {
        Some(v) => v.len(),
        None => 0,
    };
    let ghost info_seq: Seq<u8> = match &info {
        Some(v) => v@,
        None => Seq::empty(),
    };
    assert(info_seq == info_bytes(*metadata));
    let data_bytes = samples.len() * 2;
    let total_size = 44 + data_bytes + info_len;
    let mut buf: Vec<u8> = Vec::new();
    push_bytes(&mut buf, &[82u8, 73, 70, 70]);
    push_le32(&mut buf, (total_size - 8) as u32);
    push_bytes(&mut buf, &[87u8, 65, 86, 69]);
    push_bytes(&mut buf, &[102u8, 109, 116, 32]);
    push_le32(&mut buf, 16);
    push_le16(&mut buf, 1);
    push_le16(&mut buf, 1);
    push_le32(&mut buf, sample_rate);
    push_le32(&mut buf, sample_rate * 2);
    push_le16(&mut buf, 2);
    push_le16(&mut buf, 16);
    push_bytes(&mut buf, &[100u8, 97, 116, 97]);
    push_le32(&mut buf, data_bytes as u32);
    let ghost header = buf@;
    let mut i: usize = 0;
    while i < samples.len()
        invariant
            i <= samples.len(),
            buf@ == header + pcm16(samples@.take(i as int)),
        decreases samples.len() - i,
    {
        push_le16(&mut buf, samples[i] as u16);
        assert(samples@.take(i + 1).drop_last() =~= samples@.take(i as int));
        assert(buf@ =~= header + pcm16(samples@.take(i + 1)));
        i += 1;
    }
    assert(samples@.take(samples.len() as int) =~= samples@);
    if let Some(v) = info {
        push_bytes(&mut buf, v.as_slice());
    }
    proof {
        assert([82u8, 73, 70, 70]@ =~= seq![82u8, 73, 70, 70]);
        assert([87u8, 65, 86, 69]@ =~= seq![87u8, 65, 86, 69]);
        assert([102u8, 109, 116, 32]@ =~= seq![102u8, 109, 116, 32]);
        assert([100u8, 97, 116, 97]@ =~= seq![100u8, 97, 116, 97]);
        assert(buf@ =~= wav_file(samples@, sample_rate, info_bytes(*metadata)));
    }
    buf
}

/// The header is 44 bytes: the file is the header, two bytes per sample,
/// then the metadata chunk; the sample rate sits at bytes 24..28 and the
/// metadata chunk starts right after the samples.
pub proof fn wav_layout(samples: Seq<i16>, sample_rate: u32, info: Seq<u8>)
    ensures
        wav_file(samples, sample_rate, info).len() == 44 + 2 * samples.len() + info.len(),
        wav_file(samples, sample_rate, info).subrange(24, 28) == le32(sample_rate),
        wav_file(samples, sample_rate, info).subrange((44 + 2 * samples.len()) as int, (44 + 2 * samples.len() + info.len()) as int) == info,
{
    lemma_pcm16_len(samples);
    let f = wav_file(samples, sample_rate, info);
    assert(f.subrange(24, 28) =~= le32(sample_rate));
    assert(f.subrange((44 + 2 * samples.len()) as int, (44 + 2 * samples.len() + info.len()) as int) =~= info);
}

/// The RIFF size field (bytes 4..8) is the whole file's length less the
/// eight bytes of the RIFF header itself, metadata chunk included, and the
/// data chunk's size field (bytes 40..44) is the number of sample bytes,
/// two per sample; both are little-endian.
pub proof fn riff_sizes_count_the_whole_file(samples: Seq<i16>, sample_rate: u32, info: Seq<u8>)
    ensures
        wav_file(samples, sample_rate, info).subrange(4, 8) == le32(
            (wav_file(samples, sample_rate, info).len() - 8) as u32,
        ),
        wav_file(samples, sample_rate, info).subrange(40, 44) == le32((2 * samples.len()) as u32),
        wav_file(samples, sample_rate, info).subrange(36, 40) == seq![100u8, 97, 116, 97],
{
    lemma_pcm16_len(samples);
    let f = wav_file(samples, sample_rate, info);
    assert(f.len() == 44 + 2 * samples.len() + info.len());
    assert(f.subrange(4, 8) =~= le32((f.len() - 8) as u32));
    assert(f.subrange(40, 44) =~= le32((2 * samples.len()) as u32));
    assert(f.subrange(36, 40) =~= seq![100u8, 97, 116, 97]);
}

} // verus!
