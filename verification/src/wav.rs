//! WAV files with 16 kHz mono 16-bit samples.
use vstd::prelude::*;
use crate::text;
use crate::text::decimal_of;

verus! {

/// Samples per second.
pub const SAMPLE_RATE: u32 = 16_000;

/// Bytes of the header in front of the samples.
pub const HEADER_BYTES: usize = 44;

/// A number below 65536 in two bytes, the lower one first.
pub open spec fn le16(n: int) -> Seq<u8> {
    seq![(n % 256) as u8, (n / 256 % 256) as u8]
}

/// A number below 2^32 in four bytes, the lowest one first.
pub open spec fn le32(n: int) -> Seq<u8> {
    le16(n % 65536) + le16(n / 65536)
}

/// A sample as a number from 0 to 65535 in two's complement.
pub open spec fn unsigned(sample: i16) -> int {
    if sample < 0 {
        sample + 65536
    } else {
        sample as int
    }
}

/// The samples in two bytes each.
pub open spec fn pcm(samples: Seq<i16>) -> Seq<u8>
    decreases samples.len(),
{
    if samples.len() == 0 {
        Seq::empty()
    } else {
        pcm(samples.drop_last()) + le16(unsigned(samples.last()))
    }
}

/// The header of a file with so many bytes of samples: RIFF and WAVE marks, a
/// format chunk (PCM, one channel, rate, byte rate, frame size, bits per
/// sample) and the head of the data chunk.
pub open spec fn header(data: int) -> Seq<u8> {
    seq![0x52u8, 0x49, 0x46, 0x46] + le32(36 + data) + seq![0x57u8, 0x41, 0x56, 0x45] + seq![
        0x66u8,
        0x6d,
        0x74,
        0x20,
    ] + le32(16) + le16(1) + le16(1) + le32(16_000) + le32(32_000) + le16(2) + le16(16) + seq![
        0x64u8,
        0x61,
        0x74,
        0x61,
    ] + le32(data)
}

/// Append four bytes.
fn push4(out: &mut Vec<u8>, a: u8, b: u8, c: u8, d: u8)
    ensures
        final(out)@ == old(out)@ + seq![a, b, c, d],
{
    let ghost before = out@;
    out.push(a);
    out.push(b);
    out.push(c);
    out.push(d);
    assert(out@ =~= before + seq![a, b, c, d]);
}

/// Append a number in two bytes.
fn push16(out: &mut Vec<u8>, n: u32)
    requires
        n < 65536,
    ensures
        final(out)@ == old(out)@ + le16(n as int),
{
    let ghost before = out@;
    out.push((n % 256) as u8);
    out.push((n / 256 % 256) as u8);
    assert(out@ =~= before + le16(n as int));
}

/// Append a number in four bytes.
fn push32(out: &mut Vec<u8>, n: u32)
    ensures
        final(out)@ == old(out)@ + le32(n as int),
{
    let ghost before = out@;
    push16(out, n % 65536);
    push16(out, n / 65536);
    assert(out@ =~= before + le32(n as int));
}

/// The WAV file of the samples.
pub fn build_wav_bytes(samples: &[i16]) -> (r: Vec<u8>)
    requires
        36 + 2 * samples@.len() <= u32::MAX,
    ensures
        r@ == header(2 * samples@.len() as int) + pcm(samples@),
        r@.len() == HEADER_BYTES + 2 * samples@.len(),
{
    let data: u32 = 2 * samples.len() as u32;
    let mut out: Vec<u8> = Vec::new();
    push4(&mut out, 0x52, 0x49, 0x46, 0x46);
    push32(&mut out, 36 + data);
    push4(&mut out, 0x57, 0x41, 0x56, 0x45);
    push4(&mut out, 0x66, 0x6d, 0x74, 0x20);
    push32(&mut out, 16);
    push16(&mut out, 1);
    push16(&mut out, 1);
    push32(&mut out, 16_000);
    push32(&mut out, 32_000);
    push16(&mut out, 2);
    push16(&mut out, 16);
    push4(&mut out, 0x64, 0x61, 0x74, 0x61);
    push32(&mut out, data);
    assert(out@ =~= header(data as int));
    let ghost head = out@;
    let mut i: usize = 0;
    assert(out@ =~= head + pcm(samples@.take(0)));
    while i < samples.len()
        invariant
            i <= samples@.len(),
            head.len() == 44,
            out@ == head + pcm(samples@.take(i as int)),
            out@.len() == 44 + 2 * i,
        decreases samples@.len() - i,
    {
        let s: i16 = samples[i];
        let n: u32 = if s < 0 {
            (s as i32 + 65536) as u32
        } else {
            s as u32
        };
        assert(samples@.take(i + 1).drop_last() =~= samples@.take(i as int));
        push16(&mut out, n);
        assert(out@ =~= head + pcm(samples@.take(i + 1)));
        i += 1;
    }
    assert(samples@.take(i as int) =~= samples@);
    out
}

/// Sample `i` stands in the file at its place, and reading its two bytes gives
/// it back.
pub proof fn law_samples_read_back(samples: Seq<i16>, i: int)
    requires
        0 <= i < samples.len(),
    ensures
        pcm(samples).len() == 2 * samples.len(),
        pcm(samples)[2 * i] + 256 * pcm(samples)[2 * i + 1] == unsigned(samples[i]),
    decreases samples.len(),
{
    let init = samples.drop_last();
    if init.len() > 0 {
        law_samples_read_back(
            init,
            if i < init.len() {
                i
            } else {
                0
            },
        );
    } else {
        assert(pcm(init) =~= Seq::<u8>::empty());
    }
    let n = unsigned(samples.last());
    assert(pcm(samples).len() == 2 * samples.len());
    if i == init.len() {
        assert(pcm(samples)[2 * i] == le16(n)[0]);
        assert(pcm(samples)[2 * i + 1] == le16(n)[1]);
    } else {
        assert(pcm(samples)[2 * i] == pcm(init)[2 * i]);
        assert(pcm(samples)[2 * i + 1] == pcm(init)[2 * i + 1]);
    }
}

/// How the samples of a file are stored.
#[derive(Debug, Clone, Copy, PartialEq, Eq, Structural)]
pub enum SampleKind {
    Float,
    Int16,
    Int32,
}

/// How to read the samples of a file: floats of any width, or integers of two
/// widths.
pub fn sample_kind(float: bool, bits: u16) -> (r: Result<SampleKind, String>)
    ensures
        match r {
            Ok(SampleKind::Float) => float,
            Ok(SampleKind::Int16) => !float && bits == 16,
            Ok(SampleKind::Int32) => !float && bits == 32,
            Err(e) => !float && bits != 16 && bits != 32 && e@ == "unsupported wav bit depth: "@
                + text::decimal(bits as nat),
        },
{
    if float {
        return Ok(SampleKind::Float);
    }
    if bits == 16 {
        return Ok(SampleKind::Int16);
    }
    if bits == 32 {
        return Ok(SampleKind::Int32);
    }
    let mut out = String::new();
    out.append("unsupported wav bit depth: ");
    out.append(decimal_of(bits as u64).as_str());
    assert(out@ =~= "unsupported wav bit depth: "@ + text::decimal(bits as nat));
    Err(out)
}

/// A number of two or four bytes reads back from them, the lowest byte first, and
/// a sample is its own value or, below zero, that much below 65536.
pub proof fn law_bytes_read_back(n: int, m: int, s: i16)
    requires
        0 <= n < 65536,
        0 <= m < 0x1_0000_0000,
    ensures
        le16(n).len() == 2,
        le16(n)[0] + 256 * le16(n)[1] == n,
        le32(m).len() == 4,
        le32(m)[0] + 256 * le32(m)[1] + 65536 * le32(m)[2] + 16777216 * le32(m)[3] == m,
        s >= 0 ==> unsigned(s) == s,
        s < 0 ==> unsigned(s) == 65536 + s,
{
    let (lo, hi) = (le16(m % 65536), le16(m / 65536));
    assert(le32(m)[0] == lo[0] && le32(m)[1] == lo[1] && le32(m)[2] == hi[0] && le32(m)[3] == hi[1]);
    let (a, b) = (m % 65536, m / 65536);
    assert(lo[0] == (a % 256) as u8 && lo[1] == (a / 256 % 256) as u8);
    assert(hi[0] == (b % 256) as u8 && hi[1] == (b / 256 % 256) as u8);
    assert(0 <= b < 65536);
    assert(a % 256 + 256 * (a / 256 % 256) == a);
    assert(b % 256 + 256 * (b / 256 % 256) == b);
    assert(m == a + 65536 * b);
}

/// The header says how long the file and its samples are, and that they are
/// sixteen-bit samples of one channel at sixteen thousand a second.
pub proof fn law_header(data: int)
    requires
        0 <= data < 0x1_0000_0000 - 36,
    ensures
        ({
            let h = header(data);
            &&& h.len() == 44
            &&& h.subrange(0, 4) == seq![0x52u8, 0x49, 0x46, 0x46]
            &&& h.subrange(4, 8) == le32(36 + data)
            &&& h.subrange(8, 16) == seq![0x57u8, 0x41, 0x56, 0x45, 0x66, 0x6d, 0x74, 0x20]
            &&& h.subrange(16, 20) == le32(16)
            &&& h.subrange(20, 22) == le16(1)
            &&& h.subrange(22, 24) == le16(1)
            &&& h.subrange(24, 28) == le32(16_000)
            &&& h.subrange(28, 32) == le32(32_000)
            &&& h.subrange(32, 34) == le16(2)
            &&& h.subrange(34, 36) == le16(16)
            &&& h.subrange(36, 40) == seq![0x64u8, 0x61, 0x74, 0x61]
            &&& h.subrange(40, 44) == le32(data)
        }),
{
    let h = header(data);
    assert(h.len() == 44);
    assert(h.subrange(0, 4) =~= seq![0x52u8, 0x49, 0x46, 0x46]);
    assert(h.subrange(4, 8) =~= le32(36 + data));
    assert(h.subrange(8, 16) =~= seq![0x57u8, 0x41, 0x56, 0x45, 0x66, 0x6d, 0x74, 0x20]);
    assert(h.subrange(16, 20) =~= le32(16));
    assert(h.subrange(20, 22) =~= le16(1));
    assert(h.subrange(22, 24) =~= le16(1));
    assert(h.subrange(24, 28) =~= le32(16_000));
    assert(h.subrange(28, 32) =~= le32(32_000));
    assert(h.subrange(32, 34) =~= le16(2));
    assert(h.subrange(34, 36) =~= le16(16));
    assert(h.subrange(36, 40) =~= seq![0x64u8, 0x61, 0x74, 0x61]);
    assert(h.subrange(40, 44) =~= le32(data));
}

/// The header has the length that is promised of it, at the rate of the samples.
pub proof fn law_header_length(data: int)
    ensures
        header(data).len() == HEADER_BYTES,
        SAMPLE_RATE == 16_000,
{
}

} // verus!
