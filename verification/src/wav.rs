//! WAV files: reading and writing headers, silence, merging, samples.

use crate::numbers::{decimal, decimal_of, next_decimal, put_number};
use crate::records::Boundary;
use crate::text::{chars_of, extend, put, string_of};
use vstd::prelude::*;

verus! {

/// Decoded fields of a WAV header that merging and validation need.
#[derive(Debug, Clone, Copy, PartialEq, Eq, Structural)]
pub struct WavHeader {
    /// 1 for integer PCM, 3 for float PCM.
    pub fmt_tag: u16,
    pub channels: u16,
    pub sample_rate: u32,
    pub bits_per_sample: u16,
    /// Byte offset to the first PCM sample.
    pub data_offset: usize,
    /// Byte length of the PCM payload.
    pub data_len: u32,
}

/// Why bytes are not a WAV file that can be used.
#[derive(Debug, Clone, Copy, PartialEq, Eq, Structural)]
pub enum WavError {
    TooShort,
    NotRiff,
    NotWave,
    FmtTooSmall,
    UnsupportedFormat { fmt_tag: u16 },
    NoFmt,
    NoData,
}

/// What scanning a WAV header comes to.
pub enum Scanned {
    Found(WavHeader),
    Rejected(WavError),
    /// The bytes end within the fields of a format chunk.
    Truncated,
}

pub open spec fn riff() -> Seq<u8> {
    seq![0x52u8, 0x49, 0x46, 0x46]
}

pub open spec fn wave() -> Seq<u8> {
    seq![0x57u8, 0x41, 0x56, 0x45]
}

/// The tag of the format chunk.
pub open spec fn fmt() -> Seq<u8> {
    seq![0x66u8, 0x6d, 0x74, 0x20]
}

/// The tag of the chunk that holds the samples.
pub open spec fn data() -> Seq<u8> {
    seq![0x64u8, 0x61, 0x74, 0x61]
}

/// The little-endian 16-bit number at `i`.
pub open spec fn le16(d: Seq<u8>, i: int) -> int {
    d[i] + 0x100 * d[i + 1]
}

/// The little-endian 32-bit number at `i`.
pub open spec fn le32(d: Seq<u8>, i: int) -> int {
    d[i] + 0x100 * d[i + 1] + 0x10000 * d[i + 2] + 0x1000000 * d[i + 3]
}

/// The bytes of a 16-bit number, little-endian.
pub open spec fn bytes16(x: int) -> Seq<u8> {
    seq![(x % 0x100) as u8, (x / 0x100 % 0x100) as u8]
}

/// The bytes of a 32-bit number, little-endian.
pub open spec fn bytes32(x: int) -> Seq<u8> {
    seq![
        (x % 0x100) as u8,
        (x / 0x100 % 0x100) as u8,
        (x / 0x10000 % 0x100) as u8,
        (x / 0x1000000 % 0x100) as u8,
    ]
}

/// True if the four bytes of `d` at `i` are `tag`.
pub open spec fn has_tag(d: Seq<u8>, i: int, tag: Seq<u8>) -> bool {
    d[i] == tag[0] && d[i + 1] == tag[1] && d[i + 2] == tag[2] && d[i + 3] == tag[3]
}

/// What scanning the chunks of `d` from `pos` on comes to, where `seen` is the format read so
/// far. Chunks are aligned to even sizes; the first data chunk ends the scan.
pub open spec fn scan_from(d: Seq<u8>, pos: int, seen: Option<WavHeader>) -> Scanned
    decreases (if pos < d.len() { d.len() - pos } else { 0 }),
{
    if pos < 0 || pos + 8 > d.len() {
        Scanned::Rejected(
            if seen is None {
                WavError::NoFmt
            } else {
                WavError::NoData
            },
        )
    } else {
        let size = le32(d, pos + 4);
        let body = pos + 8;
        let next = body + size + size % 2;
        if has_tag(d, pos, fmt()) {
            let tag = le16(d, body);
            if size < 16 {
                Scanned::Rejected(WavError::FmtTooSmall)
            } else if body + 16 > d.len() {
                Scanned::Truncated
            } else if tag != 1 && tag != 3 {
                Scanned::Rejected(WavError::UnsupportedFormat { fmt_tag: tag as u16 })
            } else {
                scan_from(
                    d,
                    next,
                    Some(
                        WavHeader {
                            fmt_tag: tag as u16,
                            channels: le16(d, body + 2) as u16,
                            sample_rate: le32(d, body + 4) as u32,
                            bits_per_sample: le16(d, body + 14) as u16,
                            data_offset: 0,
                            data_len: 0,
                        },
                    ),
                )
            }
        } else if has_tag(d, pos, data()) {
            match seen {
                Some(h) => Scanned::Found(
                    WavHeader { data_offset: body as usize, data_len: size as u32, ..h },
                ),
                None => Scanned::Rejected(WavError::NoFmt),
            }
        } else {
            scan_from(d, next, seen)
        }
    }
}

/// What scanning the header of `d` comes to.
pub open spec fn scan(d: Seq<u8>) -> Scanned {
    if d.len() < 44 {
        Scanned::Rejected(WavError::TooShort)
    } else if !has_tag(d, 0, riff()) {
        Scanned::Rejected(WavError::NotRiff)
    } else if !has_tag(d, 8, wave()) {
        Scanned::Rejected(WavError::NotWave)
    } else {
        scan_from(d, 12, None)
    }
}

fn read16(d: &[u8], i: usize) -> (r: u16)
    requires
        i + 2 <= d.len(),
    ensures
        r == le16(d@, i as int),
{
    d[i] as u16 + 0x100 * d[i + 1] as u16
}

fn read32(d: &[u8], i: usize) -> (r: u32)
    requires
        i + 4 <= d.len(),
    ensures
        r == le32(d@, i as int),
{
    d[i] as u32 + 0x100 * d[i + 1] as u32 + 0x10000 * d[i + 2] as u32 + 0x1000000 * d[i + 3] as u32
}

fn tag_is(d: &[u8], i: usize, a: u8, b: u8, c: u8, e: u8) -> (r: bool)
    requires
        i + 4 <= d.len(),
    ensures
        r == has_tag(d@, i as int, seq![a, b, c, e]),
{
    d[i] == a && d[i + 1] == b && d[i + 2] == c && d[i + 3] == e
}

/// Parses the header of a WAV file; gives nothing if the bytes end within the fields of a format
/// chunk.
pub fn checked_parse_wav_header(bytes: &[u8]) -> (r: Option<Result<WavHeader, WavError>>)
    ensures
        match scan(bytes@) {
            Scanned::Found(h) => r == Some(Ok::<WavHeader, WavError>(h)),
            Scanned::Rejected(e) => r == Some(Err::<WavHeader, WavError>(e)),
            Scanned::Truncated => r is None,
        },
{
    if bytes.len() < 44 {
        return Some(Err(WavError::TooShort));
    }
    if !tag_is(bytes, 0, 0x52, 0x49, 0x46, 0x46) {
        return Some(Err(WavError::NotRiff));
    }
    if !tag_is(bytes, 8, 0x57, 0x41, 0x56, 0x45) {
        return Some(Err(WavError::NotWave));
    }
    let mut pos: usize = 12;
    let mut seen: Option<WavHeader> = None;
    while pos <= bytes.len() && bytes.len() - pos >= 8
        invariant
            scan(bytes@) == scan_from(bytes@, pos as int, seen),
        decreases bytes.len() - pos,
    {
        let size = read32(bytes, pos + 4);
        let body = pos + 8;
        if tag_is(bytes, pos, 0x66, 0x6d, 0x74, 0x20) {
            if size < 16 {
                return Some(Err(WavError::FmtTooSmall));
            }
            if bytes.len() - body < 16 {
                return None;
            }
            let fmt_tag = read16(bytes, body);
            if fmt_tag != 1 && fmt_tag != 3 {
                return Some(Err(WavError::UnsupportedFormat { fmt_tag }));
            }
            seen = Some(
                WavHeader {
                    fmt_tag,
                    channels: read16(bytes, body + 2),
                    sample_rate: read32(bytes, body + 4),
                    bits_per_sample: read16(bytes, body + 14),
                    data_offset: 0,
                    data_len: 0,
                },
            );
        } else if tag_is(bytes, pos, 0x64, 0x61, 0x74, 0x61) {
            return match seen {
                Some(h) => Some(Ok(WavHeader { data_offset: body, data_len: size, ..h })),
                None => Some(Err(WavError::NoFmt)),
            };
        }
        let room: u64 = (bytes.len() - body) as u64;
        let step: u64 = size as u64 + (size % 2) as u64;
        if step > room {
            assert(scan(bytes@) == scan_from(bytes@, body + step, seen));
            return match seen {
                Some(_) => Some(Err(WavError::NoData)),
                None => Some(Err(WavError::NoFmt)),
            };
        }
        pos = body + step as usize;
    }
    match seen {
        Some(_) => Some(Err(WavError::NoData)),
        None => Some(Err(WavError::NoFmt)),
    }
}

/// Parses the header of a WAV file: checks the magic, walks the chunks, decodes the format chunk
/// and stops at the data chunk.
pub fn parse_wav_header(bytes: &[u8]) -> (r: Result<WavHeader, WavError>)
    requires
        !(scan(bytes@) is Truncated),
    ensures
        match scan(bytes@) {
            Scanned::Found(h) => r == Ok::<WavHeader, WavError>(h),
            Scanned::Rejected(e) => r == Err::<WavHeader, WavError>(e),
            Scanned::Truncated => false,
        },
{
    match checked_parse_wav_header(bytes) {
        Some(r) => r,
        None => Err(WavError::NoFmt),
    }
}

/// True if the derived fields and sizes of a header fit their places in it.
pub open spec fn header_fits(ch: u16, sr: u32, bps: u16, pcm_len: int) -> bool {
    &&& sr * ch <= u32::MAX
    &&& sr * ch * bps <= u32::MAX
    &&& ch * bps <= u16::MAX
    &&& 36 + pcm_len <= u32::MAX
}

/// The 44 bytes of a WAV header.
pub open spec fn header_bytes(fmt_tag: u16, ch: u16, sr: u32, bps: u16, pcm_len: int) -> Seq<u8> {
    riff() + bytes32(36 + pcm_len) + wave() + fmt() + bytes32(16) + bytes16(fmt_tag as int)
        + bytes16(ch as int) + bytes32(sr as int) + bytes32(sr * ch * bps / 8) + bytes16(
        ch * bps / 8,
    ) + bytes16(bps as int) + data() + bytes32(pcm_len)
}

fn put16(out: &mut Vec<u8>, x: u16)
    ensures
        final(out)@ == old(out)@ + bytes16(x as int),
{
    out.push((x % 0x100) as u8);
    out.push((x / 0x100 % 0x100) as u8);
    assert(out@ == old(out)@ + bytes16(x as int));
}

fn put32(out: &mut Vec<u8>, x: u32)
    ensures
        final(out)@ == old(out)@ + bytes32(x as int),
{
    out.push((x % 0x100) as u8);
    out.push((x / 0x100 % 0x100) as u8);
    out.push((x / 0x10000 % 0x100) as u8);
    out.push((x / 0x1000000 % 0x100) as u8);
    assert(out@ == old(out)@ + bytes32(x as int));
}

fn put_tag(out: &mut Vec<u8>, a: u8, b: u8, c: u8, d: u8)
    ensures
        final(out)@ == old(out)@ + seq![a, b, c, d],
{
    out.push(a);
    out.push(b);
    out.push(c);
    out.push(d);
    assert(out@ == old(out)@ + seq![a, b, c, d]);
}

/// Writes a minimal 44-byte WAV header to the end of `out`. The layout is the same for integer
/// and float PCM; only the format field differs.
pub fn write_wav_header(out: &mut Vec<u8>, fmt_tag: u16, ch: u16, sr: u32, bps: u16, pcm_len: u32)
    requires
        header_fits(ch, sr, bps, pcm_len as int),
    ensures
        final(out)@ == old(out)@ + header_bytes(fmt_tag, ch, sr, bps, pcm_len as int),
{
    let byte_rate: u32 = sr * ch as u32 * bps as u32 / 8;
    let block_align: u16 = ch * bps / 8;
    put_tag(out, 0x52, 0x49, 0x46, 0x46);
    put32(out, 36 + pcm_len);
    put_tag(out, 0x57, 0x41, 0x56, 0x45);
    put_tag(out, 0x66, 0x6d, 0x74, 0x20);
    put32(out, 16);
    put16(out, fmt_tag);
    put16(out, ch);
    put32(out, sr);
    put32(out, byte_rate);
    put16(out, block_align);
    put16(out, bps);
    put_tag(out, 0x64, 0x61, 0x74, 0x61);
    put32(out, pcm_len);
    assert(out@ == old(out)@ + header_bytes(fmt_tag, ch, sr, bps, pcm_len as int));
}

/// The fields of a header that was written, whatever bytes follow.
#[verifier::spinoff_prover]
#[verifier::rlimit(60)]
#[verifier::spinoff_prover]
#[verifier::rlimit(40)]
proof fn lemma_header_layout(
    fmt_tag: u16,
    ch: u16,
    sr: u32,
    bps: u16,
    pcm_len: u32,
    rest: Seq<u8>,
)
    requires
        header_fits(ch, sr, bps, pcm_len as int),
    ensures
        ({
            let d = header_bytes(fmt_tag, ch, sr, bps, pcm_len as int) + rest;
            &&& d.len() == 44 + rest.len()
            &&& d.take(12) == riff() + bytes32(36 + pcm_len) + wave()
            &&& d.subrange(12, 16) == fmt()
            &&& d.subrange(16, 20) == bytes32(16)
            &&& d.subrange(20, 22) == bytes16(fmt_tag as int)
            &&& d.subrange(22, 24) == bytes16(ch as int)
            &&& d.subrange(24, 28) == bytes32(sr as int)
            &&& d.subrange(34, 36) == bytes16(bps as int)
            &&& d.subrange(36, 40) == data()
            &&& d.subrange(40, 44) == bytes32(pcm_len as int)
        }),
{
    let a = riff() + bytes32(36 + pcm_len) + wave();
    let b = fmt() + bytes32(16) + bytes16(fmt_tag as int) + bytes16(ch as int) + bytes32(sr as int);
    let c = bytes32(sr * ch * bps / 8) + bytes16(ch * bps / 8);
    let e = bytes16(bps as int) + data() + bytes32(pcm_len as int);
    let d = header_bytes(fmt_tag, ch, sr, bps, pcm_len as int) + rest;
    assert(a.len() == 12 && b.len() == 16 && c.len() == 6 && e.len() == 10);
    assert(d == a + b + c + e + rest);
    assert(d.take(12) == a);
    assert(d.subrange(12, 28) == b);
    assert(d.subrange(34, 44) == e);
    assert(d.subrange(12, 16) == b.subrange(0, 4));
    assert(d.subrange(16, 20) == b.subrange(4, 8));
    assert(d.subrange(20, 22) == b.subrange(8, 10));
    assert(d.subrange(22, 24) == b.subrange(10, 12));
    assert(d.subrange(24, 28) == b.subrange(12, 16));
    assert(d.subrange(34, 36) == e.subrange(0, 2));
    assert(d.subrange(36, 40) == e.subrange(2, 6));
    assert(d.subrange(40, 44) == e.subrange(6, 10));
    assert(b.subrange(0, 4) == fmt());
    assert(b.subrange(4, 8) == bytes32(16));
    assert(b.subrange(8, 10) == bytes16(fmt_tag as int));
    assert(b.subrange(10, 12) == bytes16(ch as int));
    assert(b.subrange(12, 16) == bytes32(sr as int));
    assert(e.subrange(0, 2) == bytes16(bps as int));
    assert(e.subrange(2, 6) == data());
    assert(e.subrange(6, 10) == bytes32(pcm_len as int));
}

proof fn lemma_tag_at(d: Seq<u8>, i: int, tag: Seq<u8>)
    requires
        0 <= i,
        i + 4 <= d.len(),
        tag.len() == 4,
        d.subrange(i, i + 4) == tag,
    ensures
        has_tag(d, i, tag),
{
    assert(d[i] == d.subrange(i, i + 4)[0]);
    assert(d[i + 1] == d.subrange(i, i + 4)[1]);
    assert(d[i + 2] == d.subrange(i, i + 4)[2]);
    assert(d[i + 3] == d.subrange(i, i + 4)[3]);
}

proof fn lemma_le16_at(d: Seq<u8>, i: int, x: int)
    requires
        0 <= i,
        i + 2 <= d.len(),
        0 <= x < 0x10000,
        d.subrange(i, i + 2) == bytes16(x),
    ensures
        le16(d, i) == x,
{
    assert(d[i] == d.subrange(i, i + 2)[0]);
    assert(d[i + 1] == d.subrange(i, i + 2)[1]);
}

proof fn lemma_le32_at(d: Seq<u8>, i: int, x: int)
    requires
        0 <= i,
        i + 4 <= d.len(),
        0 <= x < 0x100000000,
        d.subrange(i, i + 4) == bytes32(x),
    ensures
        le32(d, i) == x,
{
    assert(d[i] == d.subrange(i, i + 4)[0]);
    assert(d[i + 1] == d.subrange(i, i + 4)[1]);
    assert(d[i + 2] == d.subrange(i, i + 4)[2]);
    assert(d[i + 3] == d.subrange(i, i + 4)[3]);
}

/// A header that was written reads back: its fields are found, with the samples right after it,
/// whatever bytes follow.
pub proof fn law_header_reads_back(
    fmt_tag: u16,
    ch: u16,
    sr: u32,
    bps: u16,
    pcm_len: u32,
    rest: Seq<u8>,
)
    requires
        header_fits(ch, sr, bps, pcm_len as int),
        fmt_tag == 1 || fmt_tag == 3,
    ensures
        scan(header_bytes(fmt_tag, ch, sr, bps, pcm_len as int) + rest) == Scanned::Found(
            WavHeader {
                fmt_tag,
                channels: ch,
                sample_rate: sr,
                bits_per_sample: bps,
                data_offset: 44,
                data_len: pcm_len,
            },
        ),
{
    let d = header_bytes(fmt_tag, ch, sr, bps, pcm_len as int) + rest;
    lemma_header_layout(fmt_tag, ch, sr, bps, pcm_len, rest);
    lemma_header_scan(d, fmt_tag, ch, sr, bps, pcm_len);
}

proof fn lemma_header_scan(d: Seq<u8>, fmt_tag: u16, ch: u16, sr: u32, bps: u16, pcm_len: u32)
    requires
        fmt_tag == 1 || fmt_tag == 3,
        d.len() >= 44,
        d.take(12) == riff() + bytes32(36 + pcm_len) + wave(),
        d.subrange(12, 16) == fmt(),
        d.subrange(16, 20) == bytes32(16),
        d.subrange(20, 22) == bytes16(fmt_tag as int),
        d.subrange(22, 24) == bytes16(ch as int),
        d.subrange(24, 28) == bytes32(sr as int),
        d.subrange(34, 36) == bytes16(bps as int),
        d.subrange(36, 40) == data(),
        d.subrange(40, 44) == bytes32(pcm_len as int),
    ensures
        scan(d) == Scanned::Found(
            WavHeader {
                fmt_tag,
                channels: ch,
                sample_rate: sr,
                bits_per_sample: bps,
                data_offset: 44,
                data_len: pcm_len,
            },
        ),
{
    let top = riff() + bytes32(36 + pcm_len) + wave();
    assert(d.subrange(0, 4) == riff()) by {
        assert(d.subrange(0, 4) == d.take(12).subrange(0, 4));
        assert(top.subrange(0, 4) == riff());
    }
    assert(d.subrange(8, 12) == wave()) by {
        assert(d.subrange(8, 12) == d.take(12).subrange(8, 12));
        assert(top.subrange(8, 12) == wave());
    }
    lemma_tag_at(d, 0, riff());
    lemma_tag_at(d, 8, wave());
    lemma_tag_at(d, 12, fmt());
    lemma_tag_at(d, 36, data());
    lemma_le32_at(d, 16, 16);
    lemma_le16_at(d, 20, fmt_tag as int);
    lemma_le16_at(d, 22, ch as int);
    lemma_le32_at(d, 24, sr as int);
    lemma_le16_at(d, 34, bps as int);
    lemma_le32_at(d, 40, pcm_len as int);
    let h = WavHeader {
        fmt_tag,
        channels: ch,
        sample_rate: sr,
        bits_per_sample: bps,
        data_offset: 0,
        data_len: 0,
    };
    assert(scan_from(d, 36, Some(h)) == Scanned::Found(
        WavHeader { data_offset: 44, data_len: pcm_len, ..h },
    ));
    assert(scan_from(d, 12, None) == scan_from(d, 36, Some(h)));
}

/// Length in bytes of `ms` milliseconds of silence, in whole frames.
pub open spec fn silence_len(sr: u32, ch: u16, bps: u16, ms: u32) -> int {
    (sr * ms / 1000) * (ch * (bps as int / 8))
}

/// `n` zero bytes.
pub open spec fn zeros(n: int) -> Seq<u8> {
    Seq::new(n as nat, |i: int| 0u8)
}

/// Zero-filled PCM silence for the requested duration.
pub fn silence_bytes(sr: u32, ch: u16, bps: u16, ms: u32) -> (r: Vec<u8>)
    requires
        silence_len(sr, ch, bps, ms) <= u32::MAX,
    ensures
        r@ == zeros(silence_len(sr, ch, bps, ms)),
{
    assert(0 <= sr * ms <= 0xffff_ffff * 0xffff_ffff) by (nonlinear_arith)
        requires
            0 <= sr <= 0xffff_ffff,
            0 <= ms <= 0xffff_ffff,
    ;
    assert(0 <= ch * (bps as int / 8) <= 0xffff * 0xffff) by (nonlinear_arith)
        requires
            0 <= ch <= 0xffff,
            0 <= bps <= 0xffff,
    ;
    let frame: u32 = ch as u32 * (bps as u32 / 8);
    let frames: u64 = sr as u64 * ms as u64 / 1000;
    assert(frames * frame == silence_len(sr, ch, bps, ms));
    let total: u64 = frames * frame as u64;
    let out: Vec<u8> = vec![0u8;total as usize];
    assert(out@ == zeros(silence_len(sr, ch, bps, ms)));
    out
}

/// Why WAV files cannot be merged.
#[derive(Debug, Clone, Copy, PartialEq, Eq, Structural)]
pub enum MergeError {
    /// There is no file.
    NothingToMerge,
    /// The numbers of files and boundaries differ.
    LengthsDiffer,
    /// File `index` is not a WAV file that can be used.
    BadWav { index: usize, error: WavError },
    /// The format of file `index` is not that of the first file.
    FormatMismatch { index: usize, found: WavHeader, expected: WavHeader },
}

/// What merging comes to.
pub enum Merged {
    Bytes(Seq<u8>),
    Failed(MergeError),
    /// A header, a payload or a size that merging needs is out of range.
    OutOfRange,
}

/// The contents of files.
pub open spec fn contents(files: Seq<Vec<u8>>) -> Seq<Seq<u8>> {
    files.map_values(|f: Vec<u8>| f@)
}

/// The header of a file that has one.
pub open spec fn header_of(f: Seq<u8>) -> WavHeader {
    scan(f)->Found_0
}

/// Index of the first file from `i` on whose header is not found.
pub open spec fn first_unreadable(files: Seq<Seq<u8>>, i: int) -> int
    decreases files.len() - i,
{
    if i < 0 || i >= files.len() || !(scan(files[i]) is Found) {
        i
    } else {
        first_unreadable(files, i + 1)
    }
}

/// True if two headers agree on channels, sample rate and sample depth.
pub open spec fn same_format(a: WavHeader, b: WavHeader) -> bool {
    a.channels == b.channels && a.sample_rate == b.sample_rate && a.bits_per_sample
        == b.bits_per_sample
}

/// Index of the first file from `i` on whose format is not that of the first file.
pub open spec fn first_mismatch(files: Seq<Seq<u8>>, i: int) -> int
    decreases files.len() - i,
{
    if i < 0 || i >= files.len() || !same_format(header_of(files[i]), header_of(files[0])) {
        i
    } else {
        first_mismatch(files, i + 1)
    }
}

/// The samples of a file.
pub open spec fn payload(f: Seq<u8>) -> Seq<u8> {
    let h = header_of(f);
    f.subrange(h.data_offset as int, h.data_offset + h.data_len)
}

/// True if a file holds all the samples that its header announces.
pub open spec fn payload_whole(f: Seq<u8>) -> bool {
    let h = header_of(f);
    h.data_offset + h.data_len <= f.len()
}

/// Length of the silence for a boundary, in the format `h`.
pub open spec fn gap_len(h: WavHeader, b: Option<Boundary>, sentence_ms: u32, paragraph_ms: u32) -> int {
    match b {
        Some(Boundary::Sentence) => silence_len(
            h.sample_rate,
            h.channels,
            h.bits_per_sample,
            sentence_ms,
        ),
        Some(Boundary::Paragraph) => silence_len(
            h.sample_rate,
            h.channels,
            h.bits_per_sample,
            paragraph_ms,
        ),
        None => 0,
    }
}

/// The samples of the first `count` files, each with the silence after it.
pub open spec fn merged_pcm(
    files: Seq<Seq<u8>>,
    boundaries: Seq<Option<Boundary>>,
    sentence_ms: u32,
    paragraph_ms: u32,
    count: int,
) -> Seq<u8>
    decreases count,
{
    if count <= 0 {
        Seq::empty()
    } else {
        merged_pcm(files, boundaries, sentence_ms, paragraph_ms, count - 1) + payload(
            files[count - 1],
        ) + zeros(gap_len(header_of(files[0]), boundaries[count - 1], sentence_ms, paragraph_ms))
    }
}

/// Length of `merged_pcm`, from the headers alone.
pub open spec fn merged_len(
    files: Seq<Seq<u8>>,
    boundaries: Seq<Option<Boundary>>,
    sentence_ms: u32,
    paragraph_ms: u32,
    count: int,
) -> int
    decreases count,
{
    if count <= 0 {
        0
    } else {
        merged_len(files, boundaries, sentence_ms, paragraph_ms, count - 1) + header_of(
            files[count - 1],
        ).data_len + gap_len(
            header_of(files[0]),
            boundaries[count - 1],
            sentence_ms,
            paragraph_ms,
        )
    }
}

/// True if the silences, the samples and the header of the merged file are in range.
pub open spec fn merge_fits(
    files: Seq<Seq<u8>>,
    boundaries: Seq<Option<Boundary>>,
    sentence_ms: u32,
    paragraph_ms: u32,
) -> bool {
    let h = header_of(files[0]);
    let total = merged_len(files, boundaries, sentence_ms, paragraph_ms, files.len() as int);
    &&& silence_len(h.sample_rate, h.channels, h.bits_per_sample, sentence_ms) <= u32::MAX
    &&& silence_len(h.sample_rate, h.channels, h.bits_per_sample, paragraph_ms) <= u32::MAX
    &&& header_fits(h.channels, h.sample_rate, h.bits_per_sample, total)
    &&& forall|i: int| 0 <= i < files.len() ==> payload_whole(#[trigger] files[i])
}

/// What merging `files` comes to: all headers are read in order, formats must agree with the
/// first, and the merged file has one header, then each file's samples with its silence.
pub open spec fn merge(
    files: Seq<Seq<u8>>,
    boundaries: Seq<Option<Boundary>>,
    sentence_ms: u32,
    paragraph_ms: u32,
) -> Merged {
    let bad = first_unreadable(files, 0);
    let odd = first_mismatch(files, 1);
    let n = files.len() as int;
    if n == 0 {
        Merged::Failed(MergeError::NothingToMerge)
    } else if n != boundaries.len() {
        Merged::Failed(MergeError::LengthsDiffer)
    } else if bad < n {
        match scan(files[bad]) {
            Scanned::Rejected(error) => Merged::Failed(
                MergeError::BadWav { index: bad as usize, error },
            ),
            _ => Merged::OutOfRange,
        }
    } else if odd < n {
        Merged::Failed(
            MergeError::FormatMismatch {
                index: odd as usize,
                found: header_of(files[odd]),
                expected: header_of(files[0]),
            },
        )
    } else if !merge_fits(files, boundaries, sentence_ms, paragraph_ms) {
        Merged::OutOfRange
    } else {
        let h = header_of(files[0]);
        Merged::Bytes(
            header_bytes(
                h.fmt_tag,
                h.channels,
                h.sample_rate,
                h.bits_per_sample,
                merged_len(files, boundaries, sentence_ms, paragraph_ms, n),
            ) + merged_pcm(files, boundaries, sentence_ms, paragraph_ms, n),
        )
    }
}

proof fn lemma_first_unreadable(files: Seq<Seq<u8>>, i: int)
    requires
        0 <= i <= files.len(),
    ensures
        i <= first_unreadable(files, i) <= files.len(),
        forall|k: int| i <= k < first_unreadable(files, i) ==> scan(#[trigger] files[k]) is Found,
    decreases files.len() - i,
{
    if i < files.len() && scan(files[i]) is Found {
        lemma_first_unreadable(files, i + 1);
    }
}

/// Length in bytes of `ms` milliseconds of silence in the format `h`.
fn silence_size(h: &WavHeader, ms: u32) -> (r: u128)
    ensures
        r == silence_len(h.sample_rate, h.channels, h.bits_per_sample, ms),
{
    let ghost sr = h.sample_rate;
    let ghost ch = h.channels;
    let ghost bps = h.bits_per_sample;
    assert(0 <= sr * ms <= 0xffff_ffff * 0xffff_ffff) by (nonlinear_arith)
        requires
            0 <= sr <= 0xffff_ffff,
            0 <= ms <= 0xffff_ffff,
    ;
    assert(0 <= ch * (bps as int / 8) <= 0xffff * 0xffff) by (nonlinear_arith)
        requires
            0 <= ch <= 0xffff,
            0 <= bps <= 0xffff,
    ;
    let frames: u64 = h.sample_rate as u64 * ms as u64 / 1000;
    let frame: u32 = h.channels as u32 * (h.bits_per_sample as u32 / 8);
    assert(0 <= frames * frame <= 0xffff_ffff_ffff_ffff * 0xffff_ffff) by (nonlinear_arith)
        requires
            0 <= frames <= 0xffff_ffff_ffff_ffff,
            0 <= frame <= 0xffff_ffff,
    ;
    frames as u128 * frame as u128
}

/// True if a header of the format `h` for `pcm_len` bytes of samples is in range.
fn header_in_range(h: &WavHeader, pcm_len: u64) -> (r: bool)
    ensures
        r == header_fits(h.channels, h.sample_rate, h.bits_per_sample, pcm_len as int),
{
    let ghost sr = h.sample_rate;
    let ghost ch = h.channels;
    let ghost bps = h.bits_per_sample;
    assert(0 <= sr * ch <= 0xffff_ffff * 0xffff) by (nonlinear_arith)
        requires
            0 <= sr <= 0xffff_ffff,
            0 <= ch <= 0xffff,
    ;
    let wide: u64 = h.sample_rate as u64 * h.channels as u64;
    assert(0 <= wide * bps <= 0xffff_ffff * 0xffff * 0xffff) by (nonlinear_arith)
        requires
            0 <= wide <= 0xffff_ffff * 0xffff,
            0 <= bps <= 0xffff,
    ;
    assert(0 <= ch * bps <= 0xffff * 0xffff) by (nonlinear_arith)
        requires
            0 <= ch <= 0xffff,
            0 <= bps <= 0xffff,
    ;
    let rate: u64 = wide * h.bits_per_sample as u64;
    let align: u32 = h.channels as u32 * h.bits_per_sample as u32;
    wide <= 0xffff_ffff && rate <= 0xffff_ffff && align <= 0xffff && pcm_len <= 0xffff_ffff - 36
}

proof fn lemma_merged_len_nonneg(
    files: Seq<Seq<u8>>,
    boundaries: Seq<Option<Boundary>>,
    sentence_ms: u32,
    paragraph_ms: u32,
    count: int,
)
    ensures
        merged_len(files, boundaries, sentence_ms, paragraph_ms, count) >= 0,
    decreases count,
{
    if count > 0 {
        lemma_merged_len_nonneg(files, boundaries, sentence_ms, paragraph_ms, count - 1);
        let h = header_of(files[0]);
        lemma_silence_nonneg(h, sentence_ms);
        lemma_silence_nonneg(h, paragraph_ms);
    }
}

proof fn lemma_silence_nonneg(h: WavHeader, ms: u32)
    ensures
        silence_len(h.sample_rate, h.channels, h.bits_per_sample, ms) >= 0,
{
    let sr = h.sample_rate;
    let ch = h.channels;
    let bps = h.bits_per_sample;
    assert(0 <= sr * ms) by (nonlinear_arith)
        requires
            0 <= sr,
            0 <= ms,
    ;
    assert(0 <= ch * (bps as int / 8)) by (nonlinear_arith)
        requires
            0 <= ch,
            0 <= bps,
    ;
    let x = sr * ms / 1000;
    let y = ch * (bps as int / 8);
    assert(0 <= x * y) by (nonlinear_arith)
        requires
            0 <= x,
            0 <= y,
    ;
}

/// The header of each file, or what stops at the first file without one.
fn read_headers(files: &[Vec<u8>]) -> (r: Result<Vec<WavHeader>, Option<MergeError>>)
    ensures
        match r {
            Ok(v) => {
                &&& first_unreadable(contents(files@), 0) == files.len()
                &&& v.len() == files.len()
                &&& forall|k: int|
                    0 <= k < files.len() ==> scan(#[trigger] contents(files@)[k])
                        == Scanned::Found(v@[k])
            },
            Err(e) => {
                let bad = first_unreadable(contents(files@), 0);
                &&& 0 <= bad < files.len()
                &&& match scan(contents(files@)[bad]) {
                    Scanned::Rejected(error) => e == Some(
                        MergeError::BadWav { index: bad as usize, error },
                    ),
                    Scanned::Truncated => e is None,
                    Scanned::Found(_) => false,
                }
            },
        },
{
    let ghost all = contents(files@);
    let mut headers: Vec<WavHeader> = Vec::new();
    let mut i: usize = 0;
    while i < files.len()
        invariant
            i <= files.len(),
            all == contents(files@),
            headers.len() == i,
            first_unreadable(all, 0) == first_unreadable(all, i as int),
            forall|k: int| 0 <= k < i ==> scan(#[trigger] all[k]) == Scanned::Found(headers@[k]),
        decreases files.len() - i,
    {
        assert(all[i as int] == files@[i as int]@);
        match checked_parse_wav_header(files[i].as_slice()) {
            Some(Ok(h)) => {
                headers.push(h);
            },
            Some(Err(error)) => {
                return Err(Some(MergeError::BadWav { index: i, error }));
            },
            None => {
                return Err(None);
            },
        }
        i += 1;
    }
    Ok(headers)
}

/// True if `headers` are the headers of `files`.
spec fn headers_of(headers: Seq<WavHeader>, files: Seq<Seq<u8>>) -> bool {
    &&& headers.len() == files.len()
    &&& forall|k: int| 0 <= k < files.len() ==> header_of(#[trigger] files[k]) == headers[k]
}

/// Index of the first header whose format is not that of the first one.
fn find_mismatch(headers: &[WavHeader], files: Ghost<Seq<Seq<u8>>>) -> (r: Option<usize>)
    requires
        headers.len() > 0,
        headers_of(headers@, files@),
    ensures
        match r {
            Some(i) => i < headers.len() && first_mismatch(files@, 1) == i,
            None => first_mismatch(files@, 1) >= headers.len(),
        },
{
    let ghost all = files@;
    let first = headers[0];
    assert(first == header_of(all[0]));
    let mut i: usize = 1;
    while i < headers.len()
        invariant
            1 <= i <= headers.len(),
            all == files@,
            headers_of(headers@, all),
            first == header_of(all[0]),
            first_mismatch(all, 1) == first_mismatch(all, i as int),
        decreases headers.len() - i,
    {
        let h = headers[i];
        assert(h == header_of(all[i as int]));
        if h.channels != first.channels || h.sample_rate != first.sample_rate || h.bits_per_sample
            != first.bits_per_sample {
            return Some(i);
        }
        i += 1;
    }
    None
}

/// Length of the merged samples, up to the largest 64-bit number; nothing if the samples of a
/// file are cut off.
fn measure(
    files: &[Vec<u8>],
    headers: &[WavHeader],
    boundaries: &[Option<Boundary>],
    sentence_ms: u32,
    paragraph_ms: u32,
    sentence_size: u32,
    paragraph_size: u32,
) -> (r: Option<u64>)
    requires
        files.len() > 0,
        headers_of(headers@, contents(files@)),
        boundaries.len() == files.len(),
        ({
            let h = header_of(contents(files@)[0]);
            &&& sentence_size == silence_len(
                h.sample_rate,
                h.channels,
                h.bits_per_sample,
                sentence_ms,
            )
            &&& paragraph_size == silence_len(
                h.sample_rate,
                h.channels,
                h.bits_per_sample,
                paragraph_ms,
            )
        }),
    ensures
        match r {
            Some(total) => {
                let len = merged_len(
                    contents(files@),
                    boundaries@,
                    sentence_ms,
                    paragraph_ms,
                    files.len() as int,
                );
                &&& total == if len <= u64::MAX {
                    len
                } else {
                    u64::MAX as int
                }
                &&& forall|k: int|
                    0 <= k < files.len() ==> payload_whole(#[trigger] contents(files@)[k])
            },
            None => exists|k: int|
                0 <= k < files.len() && !payload_whole(#[trigger] contents(files@)[k]),
        },
{
    let ghost all = contents(files@);
    let ghost marks = boundaries@;
    let mut total: u64 = 0;
    let mut i: usize = 0;
    while i < files.len()
        invariant
            i <= files.len(),
            all == contents(files@),
            marks == boundaries@,
            headers_of(headers@, all),
            boundaries.len() == files.len(),
            ({
                let h = header_of(all[0]);
                &&& sentence_size == silence_len(
                    h.sample_rate,
                    h.channels,
                    h.bits_per_sample,
                    sentence_ms,
                )
                &&& paragraph_size == silence_len(
                    h.sample_rate,
                    h.channels,
                    h.bits_per_sample,
                    paragraph_ms,
                )
            }),
            total == (if merged_len(all, marks, sentence_ms, paragraph_ms, i as int) <= u64::MAX {
                merged_len(all, marks, sentence_ms, paragraph_ms, i as int)
            } else {
                u64::MAX as int
            }),
            forall|k: int| 0 <= k < i ==> payload_whole(#[trigger] all[k]),
        decreases files.len() - i,
    {
        assert(all[i as int] == files@[i as int]@);
        let h = headers[i];
        assert(h == header_of(all[i as int]));
        let room: usize = files[i].len();
        if h.data_offset > room || ((room - h.data_offset) as u64) < h.data_len as u64 {
            assert(!payload_whole(all[i as int]));
            return None;
        }
        let gap: u32 = match boundaries[i] {
            Some(Boundary::Sentence) => sentence_size,
            Some(Boundary::Paragraph) => paragraph_size,
            None => 0,
        };
        proof {
            lemma_merged_len_nonneg(all, marks, sentence_ms, paragraph_ms, i as int);
        }
        total = total.saturating_add(h.data_len as u64 + gap as u64);
        i += 1;
    }
    Some(total)
}

/// Puts the samples of each file and the silence after it at the end of `out`.
fn put_samples(
    out: &mut Vec<u8>,
    files: &[Vec<u8>],
    headers: &[WavHeader],
    boundaries: &[Option<Boundary>],
    sentence_ms: u32,
    paragraph_ms: u32,
    sentence_pad: &[u8],
    paragraph_pad: &[u8],
)
    requires
        files.len() > 0,
        headers_of(headers@, contents(files@)),
        boundaries.len() == files.len(),
        forall|k: int| 0 <= k < files.len() ==> payload_whole(#[trigger] contents(files@)[k]),
        sentence_pad@ == zeros(
            gap_len(
                header_of(contents(files@)[0]),
                Some(Boundary::Sentence),
                sentence_ms,
                paragraph_ms,
            ),
        ),
        paragraph_pad@ == zeros(
            gap_len(
                header_of(contents(files@)[0]),
                Some(Boundary::Paragraph),
                sentence_ms,
                paragraph_ms,
            ),
        ),
    ensures
        final(out)@ == old(out)@ + merged_pcm(
            contents(files@),
            boundaries@,
            sentence_ms,
            paragraph_ms,
            files.len() as int,
        ),
{
    let ghost all = contents(files@);
    let ghost marks = boundaries@;
    let ghost head = out@;
    let ghost first = header_of(all[0]);
    let mut i: usize = 0;
    while i < files.len()
        invariant
            i <= files.len(),
            all == contents(files@),
            marks == boundaries@,
            first == header_of(all[0]),
            headers_of(headers@, all),
            boundaries.len() == files.len(),
            forall|k: int| 0 <= k < files.len() ==> payload_whole(#[trigger] all[k]),
            sentence_pad@ == zeros(
                gap_len(first, Some(Boundary::Sentence), sentence_ms, paragraph_ms),
            ),
            paragraph_pad@ == zeros(
                gap_len(first, Some(Boundary::Paragraph), sentence_ms, paragraph_ms),
            ),
            out@ == head + merged_pcm(all, marks, sentence_ms, paragraph_ms, i as int),
        decreases files.len() - i,
    {
        let h = headers[i];
        assert(all[i as int] == files@[i as int]@);
        assert(payload_whole(all[i as int]));
        assert(h == header_of(all[i as int]));
        let ghost before = out@;
        let bytes = files[i].as_slice();
        assert(h.data_offset + h.data_len <= bytes.len());
        let from: usize = h.data_offset;
        let to: usize = h.data_offset + h.data_len as usize;
        put_bytes(out, &bytes[from..to]);
        assert(out@ == before + payload(all[i as int]));
        let ghost middle = out@;
        match boundaries[i] {
            Some(Boundary::Sentence) => {
                put_bytes(out, sentence_pad);
            },
            Some(Boundary::Paragraph) => {
                put_bytes(out, paragraph_pad);
            },
            None => {
                assert(middle + zeros(0) == middle);
            },
        }
        assert(out@ == middle + zeros(
            gap_len(first, marks[i as int], sentence_ms, paragraph_ms),
        ));
        proof {
            let done = merged_pcm(all, marks, sentence_ms, paragraph_ms, i as int);
            let gap = zeros(gap_len(first, marks[i as int], sentence_ms, paragraph_ms));
            assert(head + done + payload(all[i as int]) + gap == head + (done + payload(
                all[i as int],
            ) + gap));
        }
        i += 1;
    }
}

/// Puts `more` at the end of `out`.
fn put_bytes(out: &mut Vec<u8>, more: &[u8])
    ensures
        final(out)@ == old(out)@ + more@,
{
    let ghost before = out@;
    out.extend_from_slice(more);
    assert(out@ == before + more@);
}

/// Merges WAV files with silence gaps between them; gives nothing if a format chunk or the
/// samples of a file are cut off, or if a size is out of range.
pub fn checked_merge_wavs(
    files: &[Vec<u8>],
    boundaries: &[Option<Boundary>],
    sentence_gap_ms: u32,
    paragraph_gap_ms: u32,
) -> (r: Option<Result<Vec<u8>, MergeError>>)
    ensures
        match merge(contents(files@), boundaries@, sentence_gap_ms, paragraph_gap_ms) {
            Merged::Bytes(b) => r matches Some(Ok(v)) && v@ == b,
            Merged::Failed(e) => r == Some(Err::<Vec<u8>, MergeError>(e)),
            Merged::OutOfRange => r is None,
        },
{
    let ghost all = contents(files@);
    let ghost n = files.len() as int;
    if files.len() == 0 {
        return Some(Err(MergeError::NothingToMerge));
    }
    if files.len() != boundaries.len() {
        return Some(Err(MergeError::LengthsDiffer));
    }
    let headers = match read_headers(files) {
        Ok(v) => v,
        Err(Some(e)) => {
            return Some(Err(e));
        },
        Err(None) => {
            return None;
        },
    };
    assert(headers_of(headers@, all));
    let first = headers[0];
    assert(first == header_of(all[0]));
    if let Some(i) = find_mismatch(headers.as_slice(), Ghost(all)) {
        assert(headers@[i as int] == header_of(all[i as int]));
        return Some(
            Err(MergeError::FormatMismatch { index: i, found: headers[i], expected: first }),
        );
    }
    let sentence_size = silence_size(&first, sentence_gap_ms);
    let paragraph_size = silence_size(&first, paragraph_gap_ms);
    if sentence_size > 0xffff_ffff || paragraph_size > 0xffff_ffff {
        return None;
    }
    let total: u64 = match measure(
        files,
        headers.as_slice(),
        boundaries,
        sentence_gap_ms,
        paragraph_gap_ms,
        sentence_size as u32,
        paragraph_size as u32,
    ) {
        Some(total) => total,
        None => {
            return None;
        },
    };
    if !header_in_range(&first, total) {
        return None;
    }
    let sentence_pad = silence_bytes(
        first.sample_rate,
        first.channels,
        first.bits_per_sample,
        sentence_gap_ms,
    );
    let paragraph_pad = silence_bytes(
        first.sample_rate,
        first.channels,
        first.bits_per_sample,
        paragraph_gap_ms,
    );
    let mut out: Vec<u8> = Vec::new();
    write_wav_header(
        &mut out,
        first.fmt_tag,
        first.channels,
        first.sample_rate,
        first.bits_per_sample,
        total as u32,
    );
    put_samples(
        &mut out,
        files,
        headers.as_slice(),
        boundaries,
        sentence_gap_ms,
        paragraph_gap_ms,
        sentence_pad.as_slice(),
        paragraph_pad.as_slice(),
    );
    Some(Ok(out))
}

/// Merges WAV files with semantically sized silence gaps between them: one header for the whole,
/// then the samples of each file and the silence that its boundary asks for.
pub fn merge_wavs(
    files: &[Vec<u8>],
    boundaries: &[Option<Boundary>],
    sentence_gap_ms: u32,
    paragraph_gap_ms: u32,
) -> (r: Result<Vec<u8>, MergeError>)
    requires
        !(merge(contents(files@), boundaries@, sentence_gap_ms, paragraph_gap_ms) is OutOfRange),
    ensures
        match merge(contents(files@), boundaries@, sentence_gap_ms, paragraph_gap_ms) {
            Merged::Bytes(b) => r matches Ok(v) && v@ == b,
            Merged::Failed(e) => r == Err::<Vec<u8>, MergeError>(e),
            Merged::OutOfRange => false,
        },
{
    match checked_merge_wavs(files, boundaries, sentence_gap_ms, paragraph_gap_ms) {
        Some(r) => r,
        None => Err(MergeError::NothingToMerge),
    }
}

proof fn lemma_merged_pcm_len(
    files: Seq<Seq<u8>>,
    boundaries: Seq<Option<Boundary>>,
    sentence_ms: u32,
    paragraph_ms: u32,
    count: int,
)
    requires
        0 <= count <= files.len(),
        forall|i: int| 0 <= i < files.len() ==> payload_whole(#[trigger] files[i]),
    ensures
        merged_pcm(files, boundaries, sentence_ms, paragraph_ms, count).len() == merged_len(
            files,
            boundaries,
            sentence_ms,
            paragraph_ms,
            count,
        ),
    decreases count,
{
    if count > 0 {
        lemma_merged_pcm_len(files, boundaries, sentence_ms, paragraph_ms, count - 1);
        assert(payload_whole(files[count - 1]));
        lemma_silence_nonneg(header_of(files[0]), sentence_ms);
        lemma_silence_nonneg(header_of(files[0]), paragraph_ms);
    }
}

proof fn lemma_scan_tag(d: Seq<u8>, pos: int, seen: Option<WavHeader>)
    requires
        seen matches Some(h) ==> h.fmt_tag == 1 || h.fmt_tag == 3,
    ensures
        scan_from(d, pos, seen) matches Scanned::Found(h) ==> h.fmt_tag == 1 || h.fmt_tag == 3,
    decreases (if pos < d.len() { d.len() - pos } else { 0 }),
{
    if 0 <= pos && pos + 8 <= d.len() {
        let size = le32(d, pos + 4);
        let body = pos + 8;
        let next = body + size + size % 2;
        if has_tag(d, pos, fmt()) {
            let tag = le16(d, body);
            if size >= 16 && body + 16 <= d.len() && (tag == 1 || tag == 3) {
                lemma_scan_tag(
                    d,
                    next,
                    Some(
                        WavHeader {
                            fmt_tag: tag as u16,
                            channels: le16(d, body + 2) as u16,
                            sample_rate: le32(d, body + 4) as u32,
                            bits_per_sample: le16(d, body + 14) as u16,
                            data_offset: 0,
                            data_len: 0,
                        },
                    ),
                );
            }
        } else if !has_tag(d, pos, data()) {
            lemma_scan_tag(d, next, seen);
        }
    }
}

/// A header that is found is one of integer or of float PCM.
pub proof fn law_only_pcm(d: Seq<u8>)
    ensures
        scan(d) matches Scanned::Found(h) ==> h.fmt_tag == 1 || h.fmt_tag == 3,
{
    lemma_scan_tag(d, 12, None);
}

/// The merged file reads back: its header has the format of the first file, and announces
/// exactly the samples that follow it, which are those of the files with the silences.
pub proof fn law_merged_reads_back(
    files: Seq<Seq<u8>>,
    boundaries: Seq<Option<Boundary>>,
    sentence_ms: u32,
    paragraph_ms: u32,
)
    ensures
        merge(files, boundaries, sentence_ms, paragraph_ms) matches Merged::Bytes(b) ==> {
            let first = header_of(files[0]);
            let n = files.len() as int;
            &&& scan(b) matches Scanned::Found(h)
            &&& h.fmt_tag == first.fmt_tag && same_format(h, first)
            &&& h.data_offset == 44
            &&& h.data_offset + h.data_len == b.len()
            &&& payload(b) == merged_pcm(files, boundaries, sentence_ms, paragraph_ms, n)
        },
{
    if let Merged::Bytes(b) = merge(files, boundaries, sentence_ms, paragraph_ms) {
        let first = header_of(files[0]);
        let n = files.len() as int;
        let pcm = merged_pcm(files, boundaries, sentence_ms, paragraph_ms, n);
        let len = merged_len(files, boundaries, sentence_ms, paragraph_ms, n);
        lemma_first_unreadable(files, 0);
        assert(scan(files[0]) is Found);
        law_only_pcm(files[0]);
        lemma_merged_pcm_len(files, boundaries, sentence_ms, paragraph_ms, n);
        lemma_merged_len_nonneg(files, boundaries, sentence_ms, paragraph_ms, n);
        law_header_reads_back(
            first.fmt_tag,
            first.channels,
            first.sample_rate,
            first.bits_per_sample,
            len as u32,
            pcm,
        );
        lemma_header_layout(
            first.fmt_tag,
            first.channels,
            first.sample_rate,
            first.bits_per_sample,
            len as u32,
            pcm,
        );
        assert(b.subrange(44, 44 + len) == pcm);
    }
}

/// The samples of a WAV file.
#[derive(Debug)]
pub enum Samples {
    /// Signed 16-bit numbers.
    Int16(Vec<i16>),
    /// The bits of 32-bit floats.
    Float32(Vec<u32>),
}

/// Why the samples of a WAV file cannot be read.
#[derive(Debug, Clone, Copy, PartialEq, Eq, Structural)]
pub enum SampleError {
    BadWav(WavError),
    /// The length of 16-bit samples is odd.
    UnevenInt16,
    /// The length of 32-bit samples is no multiple of 4.
    UnevenFloat32,
}

/// The signed 16-bit number at `i`, little-endian, in two's complement.
pub open spec fn signed16(d: Seq<u8>, i: int) -> int {
    if le16(d, i) < 0x8000 {
        le16(d, i)
    } else {
        le16(d, i) - 0x10000
    }
}

fn read_i16(d: &[u8], i: usize) -> (r: i16)
    requires
        i + 2 <= d.len(),
    ensures
        r == signed16(d@, i as int),
{
    let u: u16 = read16(d, i);
    if u < 0x8000 {
        u as i16
    } else {
        (u as i32 - 0x10000) as i16
    }
}

/// True if the samples of a file can be sought: its header is not cut off, and if it is found,
/// neither are the samples.
pub open spec fn samples_in_range(f: Seq<u8>) -> bool {
    !(scan(f) is Truncated) && (scan(f) is Found ==> payload_whole(f))
}

/// The samples that a WAV file holds: `r` is what reading them comes to.
pub open spec fn samples_read(wav: Seq<u8>, r: Result<Samples, SampleError>) -> bool {
    match scan(wav) {
        Scanned::Rejected(e) => r == Err::<Samples, SampleError>(SampleError::BadWav(e)),
        Scanned::Truncated => false,
        Scanned::Found(h) => {
            let d = payload(wav);
            if h.fmt_tag == 1 {
                if d.len() % 2 != 0 {
                    r == Err::<Samples, SampleError>(SampleError::UnevenInt16)
                } else {
                    &&& r matches Ok(Samples::Int16(v))
                    &&& v.len() == d.len() / 2
                    &&& forall|k: int| 0 <= k < v.len() ==> v@[k] == signed16(d, 2 * k)
                }
            } else {
                if d.len() % 4 != 0 {
                    r == Err::<Samples, SampleError>(SampleError::UnevenFloat32)
                } else {
                    &&& r matches Ok(Samples::Float32(v))
                    &&& v.len() == d.len() / 4
                    &&& forall|k: int| 0 <= k < v.len() ==> v@[k] == le32(d, 4 * k)
                }
            }
        },
    }
}

/// Reads the samples of a WAV file; gives nothing if its format chunk or its samples are cut off.
pub fn checked_read_samples(wav: &[u8]) -> (r: Option<Result<Samples, SampleError>>)
    ensures
        r is Some <==> samples_in_range(wav@),
        r matches Some(s) ==> samples_read(wav@, s),
{
    match checked_parse_wav_header(wav) {
        Some(Ok(h)) => {
            if h.data_offset > wav.len() || ((wav.len() - h.data_offset) as u64)
                < h.data_len as u64 {
                return None;
            }
        },
        Some(Err(_)) => {},
        None => {
            return None;
        },
    }
    Some(read_samples(wav))
}

/// Reads the samples of a WAV file, 16-bit integers or 32-bit floats as its header says.
pub fn read_samples(wav: &[u8]) -> (r: Result<Samples, SampleError>)
    requires
        samples_in_range(wav@),
    ensures
        samples_read(wav@, r),
{
    let h = match parse_wav_header(wav) {
        Ok(h) => h,
        Err(e) => {
            return Err(SampleError::BadWav(e));
        },
    };
    assert(payload_whole(wav@));
    assert(h.data_offset + h.data_len <= wav.len());
    let from: usize = h.data_offset;
    let to: usize = h.data_offset + h.data_len as usize;
    let d = &wav[from..to];
    assert(d@ == payload(wav@));
    if h.fmt_tag == 1 {
        if d.len() % 2 != 0 {
            return Err(SampleError::UnevenInt16);
        }
        let count: usize = d.len() / 2;
        let mut out: Vec<i16> = Vec::new();
        let mut k: usize = 0;
        while k < count
            invariant
                k <= count,
                count == d.len() / 2,
                out.len() == k,
                forall|j: int| 0 <= j < k ==> out@[j] == signed16(d@, 2 * j),
            decreases count - k,
        {
            out.push(read_i16(d, 2 * k));
            k += 1;
        }
        Ok(Samples::Int16(out))
    } else {
        if d.len() % 4 != 0 {
            return Err(SampleError::UnevenFloat32);
        }
        let count: usize = d.len() / 4;
        let mut out: Vec<u32> = Vec::new();
        let mut k: usize = 0;
        while k < count
            invariant
                k <= count,
                count == d.len() / 4,
                out.len() == k,
                forall|j: int| 0 <= j < k ==> out@[j] == le32(d@, 4 * j),
            decreases count - k,
        {
            out.push(read32(d, 4 * k));
            k += 1;
        }
        Ok(Samples::Float32(out))
    }
}

impl WavError {
    /// The error in words.
    pub open spec fn text(self) -> Seq<char> {
        match self {
            WavError::TooShort => "Too short to be a WAV"@,
            WavError::NotRiff => "Not a RIFF file"@,
            WavError::NotWave => "Not a WAVE file"@,
            WavError::FmtTooSmall => "fmt chunk too small"@,
            WavError::UnsupportedFormat { fmt_tag } => "Only PCM WAV supported (fmt_tag="@
                + decimal(fmt_tag as nat) + ")"@,
            WavError::NoFmt => "No fmt  chunk found in WAV"@,
            WavError::NoData => "No data chunk found in WAV"@,
        }
    }

    /// The error in words.
    pub fn message(self) -> (r: String)
        ensures
            r@ == self.text(),
    {
        match self {
            WavError::TooShort => "Too short to be a WAV".to_owned(),
            WavError::NotRiff => "Not a RIFF file".to_owned(),
            WavError::NotWave => "Not a WAVE file".to_owned(),
            WavError::FmtTooSmall => "fmt chunk too small".to_owned(),
            WavError::UnsupportedFormat { fmt_tag } => {
                let mut out = chars_of("Only PCM WAV supported (fmt_tag=");
                put_number(&mut out, fmt_tag as u64);
                put(&mut out, ")");
                string_of(out.as_slice())
            },
            WavError::NoFmt => "No fmt  chunk found in WAV".to_owned(),
            WavError::NoData => "No data chunk found in WAV".to_owned(),
        }
    }
}

/// A format in words.
pub open spec fn format_text(h: WavHeader) -> Seq<char> {
    decimal(h.channels as nat) + "ch "@ + decimal(h.sample_rate as nat) + "Hz "@ + decimal(
        h.bits_per_sample as nat,
    ) + "bit"@
}

fn format_of(h: &WavHeader) -> (r: String)
    ensures
        r@ == format_text(*h),
{
    let mut out = decimal_of(h.channels as u64);
    put(&mut out, "ch ");
    put_number(&mut out, h.sample_rate as u64);
    put(&mut out, "Hz ");
    put_number(&mut out, h.bits_per_sample as u64);
    put(&mut out, "bit");
    string_of(out.as_slice())
}

impl MergeError {
    /// The error in words; files are counted from 1.
    pub open spec fn text(self) -> Seq<char> {
        match self {
            MergeError::NothingToMerge => "Nothing to merge"@,
            MergeError::LengthsDiffer => "Lengths must match"@,
            MergeError::BadWav { error, .. } => error.text(),
            MergeError::FormatMismatch { index, found, expected } => "File "@ + decimal(
                (index + 1) as nat,
            ) + " format mismatch: "@ + format_text(found) + " vs "@ + format_text(expected),
        }
    }

    /// The error in words.
    pub fn message(self) -> (r: String)
        ensures
            r@ == self.text(),
    {
        match self {
            MergeError::NothingToMerge => "Nothing to merge".to_owned(),
            MergeError::LengthsDiffer => "Lengths must match".to_owned(),
            MergeError::BadWav { error, .. } => error.message(),
            MergeError::FormatMismatch { index, found, expected } => {
                let mut out = chars_of("File ");
                let digits = next_decimal(index);
                extend(&mut out, digits.as_slice());
                put(&mut out, " format mismatch: ");
                let left = format_of(&found);
                put(&mut out, left.as_str());
                put(&mut out, " vs ");
                let right = format_of(&expected);
                put(&mut out, right.as_str());
                string_of(out.as_slice())
            },
        }
    }
}

impl SampleError {
    /// The error in words.
    pub open spec fn text(self) -> Seq<char> {
        match self {
            SampleError::BadWav(e) => e.text(),
            SampleError::UnevenInt16 => "int16 WAV data length not a multiple of 2"@,
            SampleError::UnevenFloat32 => "f32 WAV data length not a multiple of 4"@,
        }
    }

    /// The error in words.
    pub fn message(self) -> (r: String)
        ensures
            r@ == self.text(),
    {
        match self {
            SampleError::BadWav(e) => e.message(),
            SampleError::UnevenInt16 => "int16 WAV data length not a multiple of 2".to_owned(),
            SampleError::UnevenFloat32 => "f32 WAV data length not a multiple of 4".to_owned(),
        }
    }
}

/// The sound of file `i`: the samples that its header announces, and the silence that follows
/// them.
pub open spec fn sound(
    files: Seq<Seq<u8>>,
    boundaries: Seq<Option<Boundary>>,
    sentence_ms: u32,
    paragraph_ms: u32,
    i: int,
) -> Seq<u8> {
    let own = scan(files[i])->Found_0;
    let first = scan(files[0])->Found_0;
    files[i].subrange(own.data_offset as int, own.data_offset + own.data_len) + Seq::new(
        (match boundaries[i] {
            Some(Boundary::Sentence) => silence_len(
                first.sample_rate,
                first.channels,
                first.bits_per_sample,
                sentence_ms,
            ),
            Some(Boundary::Paragraph) => silence_len(
                first.sample_rate,
                first.channels,
                first.bits_per_sample,
                paragraph_ms,
            ),
            None => 0,
        }) as nat,
        |k: int| 0u8,
    )
}

/// The merged samples are the sounds of all files, one right behind the other, whatever the
/// boundaries are.
pub proof fn law_every_file_is_merged(
    files: Seq<Seq<u8>>,
    boundaries: Seq<Option<Boundary>>,
    sentence_ms: u32,
    paragraph_ms: u32,
    n: int,
)
    requires
        0 <= n <= files.len(),
    ensures
        merged_pcm(files, boundaries, sentence_ms, paragraph_ms, n) == Seq::new(
            n as nat,
            |i: int| sound(files, boundaries, sentence_ms, paragraph_ms, i),
        ).flatten(),
    decreases n,
{
    let own = |i: int| sound(files, boundaries, sentence_ms, paragraph_ms, i);
    let all = Seq::new(n as nat, own);
    all.lemma_flatten_and_flatten_alt_are_equivalent();
    if n > 0 {
        law_every_file_is_merged(files, boundaries, sentence_ms, paragraph_ms, n - 1);
        let front = Seq::new((n - 1) as nat, own);
        assert(all.drop_last() == front);
        front.lemma_flatten_and_flatten_alt_are_equivalent();
        let before = merged_pcm(files, boundaries, sentence_ms, paragraph_ms, n - 1);
        let gap = zeros(
            gap_len(header_of(files[0]), boundaries[n - 1], sentence_ms, paragraph_ms),
        );
        assert(own(n - 1) == payload(files[n - 1]) + gap);
        assert(before + payload(files[n - 1]) + gap == before + (payload(files[n - 1]) + gap));
    }
}

/// File `k` stands in the merged samples right behind those of the files before it: first all of
/// its samples, then its silence. So the length is that of all samples and silences together.
pub proof fn law_place_in_the_merge(
    files: Seq<Seq<u8>>,
    boundaries: Seq<Option<Boundary>>,
    sentence_ms: u32,
    paragraph_ms: u32,
    k: int,
    n: int,
)
    requires
        0 <= k < n <= files.len(),
        forall|i: int| 0 <= i < files.len() ==> payload_whole(#[trigger] files[i]),
    ensures
        ({
            let all = merged_pcm(files, boundaries, sentence_ms, paragraph_ms, n);
            let at = merged_pcm(files, boundaries, sentence_ms, paragraph_ms, k).len() as int;
            let own = header_of(files[k]);
            let end = at + own.data_len;
            let next = merged_pcm(files, boundaries, sentence_ms, paragraph_ms, k + 1).len() as int;
            &&& end <= next <= all.len()
            &&& next == end + gap_len(header_of(files[0]), boundaries[k], sentence_ms, paragraph_ms)
            &&& all.subrange(at, end) == files[k].subrange(
                own.data_offset as int,
                own.data_offset + own.data_len,
            )
            &&& forall|i: int| end <= i < next ==> #[trigger] all[i] == 0
        }),
    decreases n,
{
    let all = merged_pcm(files, boundaries, sentence_ms, paragraph_ms, n);
    let head = merged_pcm(files, boundaries, sentence_ms, paragraph_ms, k);
    let upto = merged_pcm(files, boundaries, sentence_ms, paragraph_ms, k + 1);
    let own = payload(files[k]);
    let gap = gap_len(header_of(files[0]), boundaries[k], sentence_ms, paragraph_ms);
    assert(payload_whole(files[k]));
    lemma_gap_nonneg(header_of(files[0]), boundaries[k], sentence_ms, paragraph_ms);
    assert(upto == head + own + zeros(gap));
    lemma_merged_grows(files, boundaries, sentence_ms, paragraph_ms, k + 1, n);
    let at = head.len() as int;
    let end = at + own.len();
    assert(all.subrange(at, end) == own) by {
        assert forall|i: int| 0 <= i < own.len() implies all.subrange(at, end)[i] == own[i] by {
            assert(all.take(upto.len() as int)[at + i] == upto[at + i]);
        }
    }
    assert forall|i: int| end <= i < upto.len() implies #[trigger] all[i] == 0 by {
        assert(all.take(upto.len() as int)[i] == upto[i]);
        assert(upto[i] == zeros(gap)[i - end]);
    }
}

proof fn lemma_gap_nonneg(h: WavHeader, b: Option<Boundary>, sentence_ms: u32, paragraph_ms: u32)
    ensures
        gap_len(h, b, sentence_ms, paragraph_ms) >= 0,
{
    law_silence_is_whole_frames(h.sample_rate, h.channels, h.bits_per_sample, sentence_ms);
    law_silence_is_whole_frames(h.sample_rate, h.channels, h.bits_per_sample, paragraph_ms);
}

proof fn lemma_merged_grows(
    files: Seq<Seq<u8>>,
    boundaries: Seq<Option<Boundary>>,
    sentence_ms: u32,
    paragraph_ms: u32,
    k: int,
    n: int,
)
    requires
        0 <= k <= n <= files.len(),
    ensures
        ({
            let all = merged_pcm(files, boundaries, sentence_ms, paragraph_ms, n);
            let head = merged_pcm(files, boundaries, sentence_ms, paragraph_ms, k);
            head.len() <= all.len() && all.take(head.len() as int) == head
        }),
    decreases n,
{
    let head = merged_pcm(files, boundaries, sentence_ms, paragraph_ms, k);
    if k < n {
        lemma_merged_grows(files, boundaries, sentence_ms, paragraph_ms, k, n - 1);
        let before = merged_pcm(files, boundaries, sentence_ms, paragraph_ms, n - 1);
        let all = merged_pcm(files, boundaries, sentence_ms, paragraph_ms, n);
        assert(all.take(head.len() as int) == before.take(head.len() as int));
    } else {
        assert(head.take(head.len() as int) == head);
    }
}

/// Silence is made of whole frames, as many as fit into its time.
pub proof fn law_silence_is_whole_frames(sr: u32, ch: u16, bps: u16, ms: u32)
    ensures
        exists|frames: int|
            {
                &&& #[trigger] (frames * (ch * (bps as int / 8))) == silence_len(sr, ch, bps, ms)
                &&& 0 <= frames
                &&& frames * 1000 <= sr * ms < (frames + 1) * 1000
            },
        silence_len(sr, ch, bps, ms) >= 0,
{
    let product = sr * ms;
    assert(product >= 0) by (nonlinear_arith)
        requires
            product == sr * ms,
            0 <= sr,
            0 <= ms,
    ;
    let frames = product / 1000;
    assert(frames * 1000 <= product < (frames + 1) * 1000) by (nonlinear_arith)
        requires
            frames == product / 1000,
    ;
    let frame = ch * (bps as int / 8);
    assert(frame >= 0) by (nonlinear_arith)
        requires
            frame == ch * (bps as int / 8),
            0 <= ch,
            0 <= bps,
    ;
    assert(frames * frame >= 0) by (nonlinear_arith)
        requires
            frames >= 0,
            frame >= 0,
    ;
    assert(frames * (ch * (bps as int / 8)) == silence_len(sr, ch, bps, ms));
}

/// No silence follows a file without a boundary, and what follows the others lasts as long as the
/// boundary asks for, in the format of the header.
pub proof fn law_gap_follows_boundary(h: WavHeader, sentence_ms: u32, paragraph_ms: u32)
    ensures
        gap_len(h, None, sentence_ms, paragraph_ms) == 0,
        gap_len(h, Some(Boundary::Sentence), sentence_ms, paragraph_ms) == silence_len(
            h.sample_rate,
            h.channels,
            h.bits_per_sample,
            sentence_ms,
        ),
        gap_len(h, Some(Boundary::Paragraph), sentence_ms, paragraph_ms) == silence_len(
            h.sample_rate,
            h.channels,
            h.bits_per_sample,
            paragraph_ms,
        ),
{
}

proof fn lemma_first_unreadable_is(files: Seq<Seq<u8>>, i: int)
    requires
        0 <= i <= files.len(),
    ensures
        i <= first_unreadable(files, i) <= files.len(),
        first_unreadable(files, i) < files.len() ==> !(scan(
            files[first_unreadable(files, i)],
        ) is Found),
        forall|k: int| i <= k < first_unreadable(files, i) ==> scan(#[trigger] files[k]) is Found,
    decreases files.len() - i,
{
    if i < files.len() && scan(files[i]) is Found {
        lemma_first_unreadable_is(files, i + 1);
    }
}

proof fn lemma_first_mismatch_is(files: Seq<Seq<u8>>, i: int)
    requires
        0 <= i <= files.len(),
    ensures
        i <= first_mismatch(files, i) <= files.len(),
        first_mismatch(files, i) < files.len() ==> !same_format(
            header_of(files[first_mismatch(files, i)]),
            header_of(files[0]),
        ),
        forall|k: int|
            i <= k < first_mismatch(files, i) ==> same_format(
                header_of(#[trigger] files[k]),
                header_of(files[0]),
            ),
    decreases files.len() - i,
{
    if i < files.len() && same_format(header_of(files[i]), header_of(files[0])) {
        lemma_first_mismatch_is(files, i + 1);
    }
}

/// True if two headers have the same number of channels, rate and depth.
pub open spec fn alike(a: WavHeader, b: WavHeader) -> bool {
    (a.channels, a.sample_rate, a.bits_per_sample) == (
        b.channels,
        b.sample_rate,
        b.bits_per_sample,
    )
}

/// Why a merge fails: the first file that is no WAV file is named, and if there is none, the first
/// whose format is not that of the first file. A merge that comes to bytes has files of one format
/// only, and a boundary for each.
pub proof fn law_merge_failures(
    files: Seq<Seq<u8>>,
    boundaries: Seq<Option<Boundary>>,
    sentence_ms: u32,
    paragraph_ms: u32,
)
    requires
        files.len() <= usize::MAX,
    ensures
        match merge(files, boundaries, sentence_ms, paragraph_ms) {
            Merged::Failed(MergeError::NothingToMerge) => files.len() == 0,
            Merged::Failed(MergeError::LengthsDiffer) => files.len() > 0 && files.len() != boundaries.len(),
            Merged::Failed(MergeError::BadWav { index, error }) => {
                &&& 0 < files.len() && files.len() == boundaries.len()
                &&& index < files.len()
                &&& scan(files[index as int]) == Scanned::Rejected(error)
                &&& forall|k: int| 0 <= k < index ==> scan(#[trigger] files[k]) is Found
            },
            Merged::Failed(MergeError::FormatMismatch { index, found, expected }) => {
                &&& 0 < files.len() && files.len() == boundaries.len()
                &&& 0 < index < files.len()
                &&& forall|k: int| 0 <= k < files.len() ==> scan(#[trigger] files[k]) is Found
                &&& scan(files[index as int]) == Scanned::Found(found)
                &&& scan(files[0]) == Scanned::Found(expected)
                &&& !alike(found, expected)
                &&& forall|k: int|
                    0 <= k < index ==> alike(scan(#[trigger] files[k])->Found_0, expected)
            },
            Merged::Bytes(_) => {
                &&& 0 < files.len() && files.len() == boundaries.len()
                &&& forall|k: int|
                    0 <= k < files.len() ==> {
                        &&& scan(#[trigger] files[k]) is Found
                        &&& alike(scan(files[k])->Found_0, scan(files[0])->Found_0)
                    }
            },
            Merged::OutOfRange => 0 < files.len() && files.len() == boundaries.len(),
        },
{
    lemma_first_unreadable_is(files, 0);
    if files.len() > 0 {
        lemma_first_mismatch_is(files, 1);
        assert forall|k: int| 0 <= k < first_mismatch(files, 1) implies alike(
            scan(#[trigger] files[k])->Found_0,
            scan(files[0])->Found_0,
        ) by {
            if k > 0 {
                assert(same_format(header_of(files[k]), header_of(files[0])));
            }
        }
    }
}

/// Files that are all WAV files of one format, with a boundary for each, are merged, unless a file
/// is cut off or a size does not fit its place in a header.
pub proof fn law_merge_succeeds(
    files: Seq<Seq<u8>>,
    boundaries: Seq<Option<Boundary>>,
    sentence_ms: u32,
    paragraph_ms: u32,
)
    requires
        0 < files.len() && files.len() == boundaries.len(),
        forall|k: int|
            0 <= k < files.len() ==> {
                &&& scan(#[trigger] files[k]) is Found
                &&& alike(scan(files[k])->Found_0, scan(files[0])->Found_0)
                &&& scan(files[k])->Found_0.data_offset + scan(files[k])->Found_0.data_len
                    <= files[k].len()
            },
        ({
            let h = scan(files[0])->Found_0;
            let size = merged_pcm(
                files,
                boundaries,
                sentence_ms,
                paragraph_ms,
                files.len() as int,
            ).len();
            &&& silence_len(h.sample_rate, h.channels, h.bits_per_sample, sentence_ms)
                < 0x1_0000_0000
            &&& silence_len(h.sample_rate, h.channels, h.bits_per_sample, paragraph_ms)
                < 0x1_0000_0000
            &&& h.sample_rate * h.channels < 0x1_0000_0000
            &&& h.sample_rate * h.channels * h.bits_per_sample < 0x1_0000_0000
            &&& h.channels * h.bits_per_sample < 0x1_0000
            &&& size + 36 < 0x1_0000_0000
        }),
    ensures
        merge(files, boundaries, sentence_ms, paragraph_ms) is Bytes,
{
    lemma_first_unreadable_is(files, 0);
    lemma_first_mismatch_is(files, 1);
    assert forall|k: int| 0 <= k < files.len() implies payload_whole(#[trigger] files[k]) by {
        assert(scan(files[k]) is Found);
    }
    lemma_merged_pcm_len(
        files,
        boundaries,
        sentence_ms,
        paragraph_ms,
        files.len() as int,
    );
}

/// What a header that was written says: the size of the file without its first eight bytes, the
/// bytes of a second and of a frame, and the tags.
#[verifier::spinoff_prover]
#[verifier::rlimit(40)]
pub proof fn law_header_fields(fmt_tag: u16, ch: u16, sr: u32, bps: u16, pcm_len: u32)
    requires
        header_fits(ch, sr, bps, pcm_len as int),
    ensures
        ({
            let h = header_bytes(fmt_tag, ch, sr, bps, pcm_len as int);
            &&& h.len() == 44
            &&& h.subrange(0, 4) == seq![0x52u8, 0x49, 0x46, 0x46]
            &&& h.subrange(4, 8) == bytes32(36 + pcm_len)
            &&& h.subrange(8, 16) == seq![0x57u8, 0x41, 0x56, 0x45, 0x66, 0x6d, 0x74, 0x20]
            &&& h.subrange(16, 20) == bytes32(16)
            &&& h.subrange(20, 22) == bytes16(fmt_tag as int)
            &&& h.subrange(28, 32) == bytes32(sr * ch * bps / 8)
            &&& h.subrange(32, 34) == bytes16(ch * bps / 8)
            &&& h.subrange(36, 40) == seq![0x64u8, 0x61, 0x74, 0x61]
        }),
{
    let h = header_bytes(fmt_tag, ch, sr, bps, pcm_len as int);
    lemma_header_layout(fmt_tag, ch, sr, bps, pcm_len, Seq::empty());
    assert(h + Seq::<u8>::empty() == h);
    lemma_header_rates(fmt_tag, ch, sr, bps, pcm_len);
    lemma_header_top(h, pcm_len);
}

proof fn lemma_header_rates(fmt_tag: u16, ch: u16, sr: u32, bps: u16, pcm_len: u32)
    ensures
        ({
            let h = header_bytes(fmt_tag, ch, sr, bps, pcm_len as int);
            &&& h.len() == 44
            &&& h.subrange(28, 32) == bytes32(sr * ch * bps / 8)
            &&& h.subrange(32, 34) == bytes16(ch * bps / 8)
        }),
{
    let h = header_bytes(fmt_tag, ch, sr, bps, pcm_len as int);
    let a = riff() + bytes32(36 + pcm_len) + wave() + fmt() + bytes32(16) + bytes16(
        fmt_tag as int,
    ) + bytes16(ch as int) + bytes32(sr as int);
    let b = bytes32(sr * ch * bps / 8);
    let c = bytes16(ch * bps / 8);
    let e = bytes16(bps as int) + data() + bytes32(pcm_len as int);
    assert(a.len() == 28 && b.len() == 4 && c.len() == 2 && e.len() == 10);
    assert(h == a + b + c + e);
    lemma_middle(a, b, c + e);
    lemma_middle(a + b, c, e);
    assert(a + b + (c + e) == h);
}

proof fn lemma_middle(a: Seq<u8>, b: Seq<u8>, c: Seq<u8>)
    ensures
        (a + b + c).subrange(a.len() as int, (a.len() + b.len()) as int) == b,
{
}

proof fn lemma_header_top(h: Seq<u8>, pcm_len: u32)
    requires
        h.len() == 44,
        36 + pcm_len <= u32::MAX,
        h.take(12) == riff() + bytes32(36 + pcm_len) + wave(),
        h.subrange(12, 16) == fmt(),
    ensures
        h.subrange(4, 8) == bytes32(36 + pcm_len),
        h.subrange(0, 4) == seq![0x52u8, 0x49, 0x46, 0x46],
        h.subrange(8, 16) == seq![0x57u8, 0x41, 0x56, 0x45, 0x66, 0x6d, 0x74, 0x20],
{
    let none = Seq::<u8>::empty();
    let b = bytes32(36 + pcm_len);
    lemma_middle(none, riff(), b + wave());
    lemma_middle(riff(), b, wave());
    lemma_middle(riff() + b, wave(), none);
    assert(none + riff() + (b + wave()) == h.take(12));
    assert(riff() + b + wave() + none == h.take(12));
    assert(h.subrange(0, 4) == h.take(12).subrange(0, 4));
    assert(h.subrange(4, 8) == h.take(12).subrange(4, 8));
    assert(h.subrange(8, 16) == h.take(12).subrange(8, 12) + h.subrange(12, 16));
    assert(wave() + fmt() == seq![0x57u8, 0x41, 0x56, 0x45, 0x66, 0x6d, 0x74, 0x20]);
}

/// A found header, with its samples `by` bytes further on.
pub open spec fn shifted(r: Scanned, by: int) -> Scanned {
    match r {
        Scanned::Found(h) => Scanned::Found(
            WavHeader { data_offset: (h.data_offset + by) as usize, ..h },
        ),
        _ => r,
    }
}

proof fn lemma_scan_shift(a: Seq<u8>, b: Seq<u8>, rest: Seq<u8>, p: int, seen: Option<WavHeader>)
    requires
        0 <= p,
        a.len() <= b.len(),
        (b + rest).len() <= usize::MAX,
    ensures
        scan_from(b + rest, b.len() + p, seen) == shifted(
            scan_from(a + rest, a.len() + p, seen),
            b.len() - a.len(),
        ),
    decreases (if p < rest.len() { rest.len() - p } else { 0 }),
{
    let x = a + rest;
    let y = b + rest;
    let i = a.len() + p;
    let j = b.len() + p;
    if p + 8 <= rest.len() {
        assert forall|k: int| 0 <= k < 8 implies #[trigger] x[i + k] == y[j + k] by {
            assert(x[i + k] == rest[p + k]);
            assert(y[j + k] == rest[p + k]);
        }
        assert(x[i + 0] == y[j + 0] && x[i + 1] == y[j + 1] && x[i + 2] == y[j + 2] && x[i + 3]
            == y[j + 3]);
        assert(x[i + 4] == y[j + 4] && x[i + 5] == y[j + 5] && x[i + 6] == y[j + 6] && x[i + 7]
            == y[j + 7]);
        let size = le32(x, i + 4);
        assert(size == le32(y, j + 4));
        let q = p + 8 + size + size % 2;
        if p + 24 <= rest.len() {
            assert forall|k: int| 8 <= k < 24 implies #[trigger] x[i + k] == y[j + k] by {
                assert(x[i + k] == rest[p + k]);
                assert(y[j + k] == rest[p + k]);
            }
            assert(x[i + 8] == y[j + 8] && x[i + 9] == y[j + 9]);
            assert(x[i + 10] == y[j + 10] && x[i + 11] == y[j + 11]);
            assert(x[i + 12] == y[j + 12] && x[i + 13] == y[j + 13]);
            assert(x[i + 14] == y[j + 14] && x[i + 15] == y[j + 15]);
            assert(x[i + 22] == y[j + 22] && x[i + 23] == y[j + 23]);
        }
        if has_tag(x, i, fmt()) {
            let body = i + 8;
            let tag = le16(x, body);
            if size >= 16 && body + 16 <= x.len() && (tag == 1 || tag == 3) {
                let h = WavHeader {
                    fmt_tag: tag as u16,
                    channels: le16(x, body + 2) as u16,
                    sample_rate: le32(x, body + 4) as u32,
                    bits_per_sample: le16(x, body + 14) as u16,
                    data_offset: 0,
                    data_len: 0,
                };
                lemma_scan_shift(a, b, rest, q, Some(h));
                assert(scan_from(x, i, seen) == scan_from(x, a.len() + q, Some(h)));
                assert(scan_from(y, j, seen) == scan_from(y, b.len() + q, Some(h)));
            }
        } else if !has_tag(x, i, data()) {
            lemma_scan_shift(a, b, rest, q, seen);
        }
    }
}

/// A chunk that is neither a format nor a data chunk is skipped, with the byte that makes its size
/// even: it only moves the samples further on.
pub proof fn law_other_chunks_are_skipped(
    p: Seq<u8>,
    tag: Seq<u8>,
    body: Seq<u8>,
    rest: Seq<u8>,
    seen: Option<WavHeader>,
)
    requires
        tag.len() == 4,
        tag != fmt(),
        tag != data(),
        body.len() < 0x1_0000_0000,
        (p + tag + bytes32(body.len() as int) + body + zeros(body.len() as int % 2) + rest).len()
            <= usize::MAX,
    ensures
        scan_from(
            p + tag + bytes32(body.len() as int) + body + zeros(body.len() as int % 2) + rest,
            p.len() as int,
            seen,
        ) == shifted(
            scan_from(p + rest, p.len() as int, seen),
            8 + body.len() + body.len() as int % 2,
        ),
{
    let n = body.len() as int;
    let b = p + tag + bytes32(n) + body + zeros(n % 2);
    let d = b + rest;
    let i = p.len() as int;
    assert(d.subrange(i + 4, i + 8) == bytes32(n));
    lemma_le32_at(d, i + 4, n);
    assert(d[i] == tag[0] && d[i + 1] == tag[1] && d[i + 2] == tag[2] && d[i + 3] == tag[3]);
    if has_tag(d, i, fmt()) {
        assert(tag == fmt());
    }
    if has_tag(d, i, data()) {
        assert(tag == data());
    }
    assert(scan_from(d, i, seen) == scan_from(d, b.len() as int, seen));
    lemma_scan_shift(p, b, rest, 0, seen);
}

/// A data chunk ends the scan: the samples begin behind its size, which is their length.
pub proof fn law_data_chunk_ends_the_scan(
    p: Seq<u8>,
    n: u32,
    rest: Seq<u8>,
    seen: Option<WavHeader>,
)
    requires
        p.len() + 8 <= usize::MAX,
    ensures
        scan_from(p + data() + bytes32(n as int) + rest, p.len() as int, seen) == match seen {
            Some(h) => Scanned::Found(
                WavHeader { data_offset: (p.len() + 8) as usize, data_len: n, ..h },
            ),
            None => Scanned::Rejected(WavError::NoFmt),
        },
{
    let d = p + data() + bytes32(n as int) + rest;
    let i = p.len() as int;
    assert(d.subrange(i, i + 4) == data());
    lemma_tag_at(d, i, data());
    assert(d.subrange(i + 4, i + 8) == bytes32(n as int));
    lemma_le32_at(d, i + 4, n as int);
    assert(!has_tag(d, i, fmt()));
}

/// A format chunk gives the fields of the format, the last one it has; what follows the fields in
/// it is skipped.
pub proof fn law_format_chunk_is_read(
    p: Seq<u8>,
    fmt_tag: u16,
    ch: u16,
    sr: u32,
    skip: Seq<u8>,
    bps: u16,
    more: Seq<u8>,
    rest: Seq<u8>,
    seen: Option<WavHeader>,
)
    requires
        skip.len() == 6,
        more.len() + 16 < 0x1_0000_0000,
        fmt_tag == 1 || fmt_tag == 3,
    ensures
        ({
            let n = 16 + more.len() as int;
            let head = p + fmt() + bytes32(n) + (bytes16(fmt_tag as int) + bytes16(ch as int)
                + bytes32(sr as int) + skip + bytes16(bps as int)) + more + zeros(n % 2);
            scan_from(head + rest, p.len() as int, seen) == scan_from(
                head + rest,
                head.len() as int,
                Some(
                    WavHeader {
                        fmt_tag,
                        channels: ch,
                        sample_rate: sr,
                        bits_per_sample: bps,
                        data_offset: 0,
                        data_len: 0,
                    },
                ),
            )
        }),
{
    let n = 16 + more.len() as int;
    let fields = bytes16(fmt_tag as int) + bytes16(ch as int) + bytes32(sr as int) + skip
        + bytes16(bps as int);
    let front = p + fmt() + bytes32(n);
    let head = front + fields + more + zeros(n % 2);
    let d = head + rest;
    let i = p.len() as int;
    assert(fields.len() == 16);
    assert(front.len() == i + 8);
    assert(head.len() == i + 8 + n + n % 2);
    assert(d.take(i + 8) == front);
    assert(d.subrange(i + 8, i + 24) == fields);
    assert(d.subrange(i, i + 4) == fmt()) by {
        assert(d.subrange(i, i + 4) == d.take(i + 8).subrange(i, i + 4));
        assert(front.subrange(i, i + 4) == fmt());
    }
    assert(d.subrange(i + 4, i + 8) == bytes32(n)) by {
        assert(d.subrange(i + 4, i + 8) == d.take(i + 8).subrange(i + 4, i + 8));
        assert(front.subrange(i + 4, i + 8) == bytes32(n));
    }
    lemma_tag_at(d, i, fmt());
    lemma_le32_at(d, i + 4, n);
    lemma_fields(d, i + 8, fmt_tag, ch, sr, skip, bps);
}

proof fn lemma_fields(
    d: Seq<u8>,
    i: int,
    fmt_tag: u16,
    ch: u16,
    sr: u32,
    skip: Seq<u8>,
    bps: u16,
)
    requires
        0 <= i,
        i + 16 <= d.len(),
        skip.len() == 6,
        d.subrange(i, i + 16) == bytes16(fmt_tag as int) + bytes16(ch as int) + bytes32(sr as int)
            + skip + bytes16(bps as int),
    ensures
        le16(d, i) == fmt_tag,
        le16(d, i + 2) == ch,
        le32(d, i + 4) == sr,
        le16(d, i + 14) == bps,
{
    let fields = d.subrange(i, i + 16);
    assert(d.subrange(i, i + 2) == bytes16(fmt_tag as int)) by {
        assert(fields.subrange(0, 2) == bytes16(fmt_tag as int));
        assert(d.subrange(i, i + 2) == fields.subrange(0, 2));
    }
    assert(d.subrange(i + 2, i + 4) == bytes16(ch as int)) by {
        assert(fields.subrange(2, 4) == bytes16(ch as int));
        assert(d.subrange(i + 2, i + 4) == fields.subrange(2, 4));
    }
    assert(d.subrange(i + 4, i + 8) == bytes32(sr as int)) by {
        assert(fields.subrange(4, 8) == bytes32(sr as int));
        assert(d.subrange(i + 4, i + 8) == fields.subrange(4, 8));
    }
    assert(d.subrange(i + 14, i + 16) == bytes16(bps as int)) by {
        assert(fields.subrange(14, 16) == bytes16(bps as int));
        assert(d.subrange(i + 14, i + 16) == fields.subrange(14, 16));
    }
    lemma_le16_at(d, i, fmt_tag as int);
    lemma_le16_at(d, i + 2, ch as int);
    lemma_le32_at(d, i + 4, sr as int);
    lemma_le16_at(d, i + 14, bps as int);
}

/// Bytes too few for a header, or without its two marks, are no WAV file, and where no chunk is
/// left nothing is found.
pub proof fn law_marks_of_a_wav_file(d: Seq<u8>)
    ensures
        d.len() < 44 <==> scan(d) == Scanned::Rejected(WavError::TooShort),
        d.len() >= 44 ==> (d.take(4) != seq![0x52u8, 0x49, 0x46, 0x46] <==> scan(d)
            == Scanned::Rejected(WavError::NotRiff)),
        d.len() >= 44 && d.take(4) == seq![0x52u8, 0x49, 0x46, 0x46] ==> (d.subrange(8, 12)
            != seq![0x57u8, 0x41, 0x56, 0x45] <==> scan(d) == Scanned::Rejected(
            WavError::NotWave,
        )),
        d.len() >= 44 && d.take(4) == seq![0x52u8, 0x49, 0x46, 0x46] && d.subrange(8, 12)
            == seq![0x57u8, 0x41, 0x56, 0x45] ==> scan(d) == scan_from(d, 12, None),
{
    lemma_scan_errors(d, 12, None);
    if d.len() >= 44 {
        if d.take(4) == riff() {
            assert(d.take(4)[0] == d[0] && d.take(4)[1] == d[1] && d.take(4)[2] == d[2]
                && d.take(4)[3] == d[3]);
        }
        if has_tag(d, 0, riff()) {
            assert(d.take(4) == riff());
        }
        if d.subrange(8, 12) == wave() {
            assert(d.subrange(8, 12)[0] == d[8] && d.subrange(8, 12)[1] == d[9] && d.subrange(
                8,
                12,
            )[2] == d[10] && d.subrange(8, 12)[3] == d[11]);
        }
        if has_tag(d, 8, wave()) {
            assert(d.subrange(8, 12) == wave());
        }
    }
}

proof fn lemma_scan_errors(d: Seq<u8>, pos: int, seen: Option<WavHeader>)
    ensures
        scan_from(d, pos, seen) matches Scanned::Rejected(e) ==> !(e is TooShort)
            && !(e is NotRiff) && !(e is NotWave),
    decreases (if pos < d.len() { d.len() - pos } else { 0 }),
{
    if pos >= 0 && pos + 8 <= d.len() {
        let size = le32(d, pos + 4);
        let body = pos + 8;
        let next = body + size + size % 2;
        if has_tag(d, pos, fmt()) {
            let tag = le16(d, body);
            if size >= 16 && body + 16 <= d.len() && (tag == 1 || tag == 3) {
                lemma_scan_errors(
                    d,
                    next,
                    Some(
                        WavHeader {
                            fmt_tag: tag as u16,
                            channels: le16(d, body + 2) as u16,
                            sample_rate: le32(d, body + 4) as u32,
                            bits_per_sample: le16(d, body + 14) as u16,
                            data_offset: 0,
                            data_len: 0,
                        },
                    ),
                );
            }
        } else if !has_tag(d, pos, data()) {
            lemma_scan_errors(d, next, seen);
        }
    }
}

/// The samples that are read are the bytes behind the header, each byte of them: written down
/// again, little-endian and in two's complement, they are the same bytes.
pub proof fn law_samples_are_the_bytes(wav: Seq<u8>, r: Result<Samples, SampleError>)
    requires
        samples_read(wav, r),
        payload_whole(wav),
    ensures
        match r {
            Ok(Samples::Int16(v)) => {
                let d = payload(wav);
                &&& header_of(wav).fmt_tag == 1
                &&& d.len() == 2 * v.len()
                &&& forall|k: int|
                    0 <= k < v.len() ==> bytes16((#[trigger] v@[k] as int) % 0x10000)
                        == d.subrange(2 * k, 2 * k + 2)
            },
            Ok(Samples::Float32(v)) => {
                let d = payload(wav);
                &&& header_of(wav).fmt_tag == 3
                &&& d.len() == 4 * v.len()
                &&& forall|k: int|
                    0 <= k < v.len() ==> bytes32(#[trigger] v@[k] as int) == d.subrange(
                        4 * k,
                        4 * k + 4,
                    )
            },
            Err(SampleError::UnevenInt16) => header_of(wav).fmt_tag == 1 && payload(wav).len() % 2
                == 1,
            Err(SampleError::UnevenFloat32) => header_of(wav).fmt_tag == 3 && payload(wav).len() % 4
                != 0,
            Err(SampleError::BadWav(e)) => scan(wav) == Scanned::Rejected(e),
        },
{
    law_only_pcm(wav);
    match r {
        Ok(Samples::Int16(v)) => {
            let d = payload(wav);
            assert forall|k: int| 0 <= k < v.len() implies bytes16(
                (#[trigger] v@[k] as int) % 0x10000,
            ) == d.subrange(2 * k, 2 * k + 2) by {
                assert(v@[k] == signed16(d, 2 * k));
                lemma_bytes16(d[2 * k], d[2 * k + 1]);
            }
        },
        Ok(Samples::Float32(v)) => {
            let d = payload(wav);
            assert forall|k: int| 0 <= k < v.len() implies bytes32(#[trigger] v@[k] as int)
                == d.subrange(4 * k, 4 * k + 4) by {
                assert(v@[k] == le32(d, 4 * k));
                lemma_bytes32(d[4 * k], d[4 * k + 1], d[4 * k + 2], d[4 * k + 3]);
            }
        },
        _ => {},
    }
}

proof fn lemma_bytes16(a: u8, b: u8)
    ensures
        bytes16(a + 0x100 * b) == seq![a, b],
{
}

proof fn lemma_bytes32(a: u8, b: u8, c: u8, e: u8)
    ensures
        bytes32(a + 0x100 * b + 0x10000 * c + 0x1000000 * e) == seq![a, b, c, e],
{
    let x = a + 0x100 * b + 0x10000 * c + 0x1000000 * e;
    let y = b + 0x100 * c + 0x10000 * e;
    let z = c + 0x100 * e;
    assert(x == a + 0x100 * y);
    assert(y == b + 0x100 * z);
    assert(x % 0x100 == a && x / 0x100 == y);
    assert(y % 0x100 == b && y / 0x100 == z);
    assert(z % 0x100 == c && z / 0x100 == e);
    assert(x / 0x10000 == z);
    assert(x / 0x1000000 == e);
    assert(bytes32(x) == seq![a, b, c, e]);
}

/// The samples of a file can be read if its header is found and all of them are there, and so can
/// those of no file whose samples are cut off.
pub proof fn law_samples_need_their_bytes(f: Seq<u8>)
    ensures
        scan(f) matches Scanned::Found(h) ==> (samples_in_range(f) <==> h.data_offset + h.data_len
            <= f.len()),
        scan(f) is Rejected ==> samples_in_range(f),
        scan(f) is Truncated ==> !samples_in_range(f),
{
}

/// A list of files holds the bytes of each of them, in their order.
pub proof fn law_contents(files: Seq<Vec<u8>>)
    ensures
        contents(files).len() == files.len(),
        forall|i: int| 0 <= i < files.len() ==> #[trigger] contents(files)[i] == files[i]@,
{
}

/// Little-endian numbers read back.
pub proof fn law_numbers_read_back(x: int, y: int)
    requires
        0 <= x < 0x1_0000,
        0 <= y < 0x1_0000_0000,
    ensures
        bytes16(x).len() == 2,
        bytes32(y).len() == 4,
        bytes16(x)[0] + 256 * bytes16(x)[1] == x,
        bytes32(y)[0] + 256 * bytes32(y)[1] + 65536 * bytes32(y)[2] + 16777216 * bytes32(y)[3]
            == y,
        le16(bytes16(x), 0) == x,
        le32(bytes32(y), 0) == y,
{
    let a = bytes16(x);
    let b = bytes32(y);
    assert(a.subrange(0, 2) == a);
    assert(b.subrange(0, 4) == b);
    lemma_le16_at(a, 0, x);
    lemma_le32_at(b, 0, y);
}

/// A format chunk is refused if it is too small for its fields, if the file ends within them, and
/// if it is neither of integer nor of float PCM, in this order.
pub proof fn law_format_chunks_that_are_refused(
    p: Seq<u8>,
    n: u32,
    rest: Seq<u8>,
    seen: Option<WavHeader>,
)
    ensures
        ({
            let r = scan_from(p + fmt() + bytes32(n as int) + rest, p.len() as int, seen);
            &&& n < 16 ==> r == Scanned::Rejected(WavError::FmtTooSmall)
            &&& n >= 16 && rest.len() < 16 ==> r is Truncated
            &&& n >= 16 && rest.len() >= 16 && rest[0] + 256 * rest[1] != 1 && rest[0] + 256
                * rest[1] != 3 ==> r == Scanned::Rejected(
                WavError::UnsupportedFormat { fmt_tag: (rest[0] + 256 * rest[1]) as u16 },
            )
        }),
{
    let d = p + fmt() + bytes32(n as int) + rest;
    let i = p.len() as int;
    assert(d.subrange(i, i + 4) == fmt());
    lemma_tag_at(d, i, fmt());
    assert(d.subrange(i + 4, i + 8) == bytes32(n as int));
    lemma_le32_at(d, i + 4, n as int);
    if rest.len() >= 16 {
        assert(d[i + 8] == rest[0] && d[i + 9] == rest[1]);
    }
}

/// Where fewer than eight bytes are left no chunk follows: then the format is missing, or if that
/// was seen, the data.
pub proof fn law_scan_ends_with_the_bytes(d: Seq<u8>, pos: int, seen: Option<WavHeader>)
    requires
        0 <= pos,
        d.len() < pos + 8,
    ensures
        seen is None ==> scan_from(d, pos, seen) == Scanned::Rejected(WavError::NoFmt),
        seen is Some ==> scan_from(d, pos, seen) == Scanned::Rejected(WavError::NoData),
{
}

} // verus!
