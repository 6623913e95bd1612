//! Decoders for the compressed blocks inside disk images: whole blocks in memory, with the
//! output limited to what the block may hold (so a damaged or hostile block cannot make
//! more memory necessary).

use vstd::prelude::*;
use vstd::string::*;
use crate::engine::formats::source::{bad, be_value, push_bytes};
use crate::error::{bad_fault, Error, Fault};

verus! {

#[derive(Clone, Copy, Debug, PartialEq, Eq, Structural)]
pub enum Codec {
    /// zlib (RFC 1950): DMG (UDZO).
    Zlib,
    /// Raw deflate (RFC 1951): QCOW2.
    Deflate,
    /// zstd frames: QCOW2.
    Zstd,
    /// A bzip2 stream: DMG (UDBZ).
    Bzip2,
    /// An LZFSE stream: DMG (ULFO).
    Lzfse,
    /// An xz stream: DMG (ULMO).
    Xz,
    /// Apple Data Compression: DMG (UDCO).
    Adc,
}

/// A codec's name in messages.
pub open spec fn codec_name(codec: Codec) -> Seq<char> {
    match codec {
        Codec::Zlib => "zlib"@,
        Codec::Deflate => "deflate"@,
        Codec::Zstd => "zstd"@,
        Codec::Bzip2 => "bzip2"@,
        Codec::Lzfse => "LZFSE"@,
        Codec::Xz => "xz"@,
        Codec::Adc => "ADC"@,
    }
}

impl Codec {
    pub fn name(self) -> (s: &'static str)
        ensures
            s@ == codec_name(self),
    {
        match self {
            Codec::Zlib => "zlib",
            Codec::Deflate => "deflate",
            Codec::Zstd => "zstd",
            Codec::Bzip2 => "bzip2",
            Codec::Lzfse => "LZFSE",
            Codec::Xz => "xz",
            Codec::Adc => "ADC",
        }
    }
}

// The decoders that other crates bring.

/// What `flate2::Decompress::decompress` makes of a deflate stream (in a zlib wrapping or
/// not) in one step, with room for `max` bytes: the bytes, or what it says of the data.
pub uninterp spec fn inflated(input: Seq<u8>, max: nat, zlib: bool) -> Result<Seq<u8>, Seq<char>>;

/// `flate2::Decompress::decompress` on all of `input`, into a buffer of `max` bytes: what it
/// wrote, or the text of its error. Nothing is said of what the bytes are, only that they
/// are the same for the same input, and no more than there is room for.
#[verifier::external_body]
fn inflate(input: &[u8], max: usize, zlib: bool) -> (r: Result<Vec<u8>, String>)
    ensures
        match r {
            Ok(v) => inflated(input@, max as nat, zlib) == Ok::<Seq<u8>, Seq<char>>(v@) && v@.len() <= max,
            Err(e) => inflated(input@, max as nat, zlib) == Err::<Seq<u8>, Seq<char>>(e@),
        },
{
    let mut out = vec![0u8; max];
    let mut z = flate2::Decompress::new(zlib);
    z.decompress(input, &mut out, flate2::FlushDecompress::Finish).map_err(|e| e.to_string())?;
    out.truncate(z.total_out() as usize);
    Ok(out)
}

/// What a decoder makes of data that it is fed from its start on, as much as it takes, with room
/// for all that it makes.
#[verifier::ext_equal]
pub ghost enum Streamed {
    /// The first `len` bytes are a whole stream, which holds `made`.
    Whole { len: nat, made: Seq<u8> },
    /// All of it is the start of a stream, and gives `made`.
    Unfinished { made: Seq<u8> },
    /// After `made`, the decoder says what is wrong.
    Refused { made: Seq<u8>, why: Seq<char> },
}

/// The bytes that came out.
pub open spec fn streamed_bytes(s: Streamed) -> Seq<u8> {
    match s {
        Streamed::Whole { made, .. } => made,
        Streamed::Unfinished { made } => made,
        Streamed::Refused { made, .. } => made,
    }
}

/// Does `s` start with `start`?
pub open spec fn begins(s: Seq<u8>, start: Seq<u8>) -> bool {
    start.len() <= s.len() && s.take(start.len() as int) == start
}

/// Is it a refusal with these words, after no more than `most` bytes?
pub open spec fn refused_with(s: Streamed, most: nat, words: Seq<char>) -> bool {
    s matches Streamed::Refused { made, why } && made.len() <= most && why == words
}

/// The most that decoders take or make in one call.
pub const MOST_AT_ONCE: usize = 0xffff_ffff;

/// What one step of a new `zstd::stream::raw::Decoder` does with `input` and room for `max`
/// bytes: how much of the input it took and what it wrote, or what it says of the data.
pub uninterp spec fn zstd_step(input: Seq<u8>, max: nat) -> Result<(nat, Seq<u8>), Seq<char>>;

/// A new `zstd::stream::raw::Decoder` and one `run_on_buffers` of it, into a buffer of `max`
/// bytes: how much of the input it took and what it wrote, or the text of its error. None
/// when there is no memory for a decoder.
#[verifier::external_body]
fn zstd_run(input: &[u8], max: usize) -> (r: Option<Result<(usize, Vec<u8>), String>>)
    ensures
        match r {
            Some(Ok((n, v))) => {
                &&& zstd_step(input@, max as nat) == Ok::<(nat, Seq<u8>), Seq<char>>((n as nat, v@))
                &&& n <= input@.len()
                &&& v@.len() <= max
            },
            Some(Err(e)) => zstd_step(input@, max as nat) == Err::<(nat, Seq<u8>), Seq<char>>(e@),
            None => true,
        },
{
    let mut out = vec![0u8; max];
    let mut d = zstd::stream::raw::Decoder::new().ok()?;
    match zstd::stream::raw::Operation::run_on_buffers(&mut d, input, &mut out) {
        Ok(s) => {
            out.truncate(s.bytes_written);
            Some(Ok((s.bytes_read, out)))
        }
        Err(e) => Some(Err(e.to_string())),
    }
}

/// What a new `bzip2::Decompress` makes of a bzip2 stream in one step, with room for `max`
/// bytes: the bytes and whether they are the end of the stream, or what it says of the data.
pub uninterp spec fn bunzipped(input: Seq<u8>, max: nat) -> Result<(Seq<u8>, bool), Seq<char>>;

/// `bzip2::Decompress::decompress` on all of `input`, into a buffer of `max` bytes: what it
/// wrote and whether it came to the end of the stream, or the text of its error. None when
/// there is no memory for what it needs.
#[verifier::external_body]
pub(crate) fn bunzip2(input: &[u8], max: usize) -> (r: Option<Result<(Vec<u8>, bool), String>>)
    ensures
        match r {
            Some(Ok((v, end))) => bunzipped(input@, max as nat) == Ok::<(Seq<u8>, bool), Seq<char>>((v@, end))
                && v@.len() <= max,
            Some(Err(e)) => bunzipped(input@, max as nat) == Err::<(Seq<u8>, bool), Seq<char>>(e@),
            None => true,
        },
{
    let mut out = vec![0u8; max];
    let mut bz = bzip2::Decompress::new(false);
    match bz.decompress(input, &mut out) {
        Ok(bzip2::Status::MemNeeded) => None,
        Ok(status) => {
            out.truncate(bz.total_out() as usize);
            Some(Ok((out, status == bzip2::Status::StreamEnd)))
        }
        Err(e) => Some(Err(e.to_string())),
    }
}

/// What `lzma_rust2::XzReader` reads of an xz stream, up to `max` bytes, or what it says of
/// the data.
pub uninterp spec fn unxzed(input: Seq<u8>, max: nat) -> Result<Seq<u8>, Seq<char>>;

/// `lzma_rust2::XzReader` over `input` (one stream), read to its end or to `max` bytes: the
/// bytes, or the text of its error.
#[verifier::external_body]
fn unxz(input: &[u8], max: usize) -> (r: Result<Vec<u8>, String>)
    ensures
        match r {
            Ok(v) => unxzed(input@, max as nat) == Ok::<Seq<u8>, Seq<char>>(v@) && v@.len() <= max,
            Err(e) => unxzed(input@, max as nat) == Err::<Seq<u8>, Seq<char>>(e@),
        },
{
    let mut out = Vec::new();
    let xz = lzma_rust2::XzReader::new(input, false);
    let mut xz = std::io::Read::take(xz, max as u64);
    std::io::Read::read_to_end(&mut xz, &mut out).map_err(|e| e.to_string())?;
    Ok(out)
}

/// What `lzfse_rust::LzfseRingDecoder` writes for an LZFSE stream, with room for `max` bytes:
/// the bytes, or what it says of the data; no words when there is no more room.
pub uninterp spec fn unlzfsed(input: Seq<u8>, max: nat) -> Result<Seq<u8>, Option<Seq<char>>>;

/// `lzfse_rust::LzfseRingDecoder::decode` from `input` into a buffer of `max` bytes: what it
/// wrote, or the text of its error; no text when the buffer took no more (the kind of an
/// error that the buffer gives).
#[verifier::external_body]
fn unlzfse(input: &[u8], max: usize) -> (r: Result<Vec<u8>, Option<String>>)
    ensures
        match r {
            Ok(v) => unlzfsed(input@, max as nat) == Ok::<Seq<u8>, Option<Seq<char>>>(v@) && v@.len() <= max,
            Err(Some(e)) => unlzfsed(input@, max as nat) == Err::<Seq<u8>, Option<Seq<char>>>(Some(e@)),
            Err(None) => unlzfsed(input@, max as nat) == Err::<Seq<u8>, Option<Seq<char>>>(None),
        },
{
    let mut out = vec![0u8; max];
    let mut to = std::io::Cursor::new(&mut out[..]);
    let (_, n) = lzfse_rust::LzfseRingDecoder::default().decode(&mut &input[..], &mut to).map_err(|e| match e {
        lzfse_rust::Error::Io(io) if io.kind() == std::io::ErrorKind::WriteZero => None,
        e => Some(e.to_string()),
    })?;
    out.truncate(n as usize);
    Ok(out)
}

// Apple Data Compression (the "ADC" of old UDCO disk images): byte-oriented LZ77.

/// `out` and `n` more bytes, each the one `dist` before it.
pub open spec fn copied(out: Seq<u8>, dist: nat, n: nat) -> Seq<u8>
    decreases n,
{
    if n == 0 {
        out
    } else {
        let prev = copied(out, dist, (n - 1) as nat);
        prev.push(prev[prev.len() - dist])
    }
}

/// The first `max` bytes, or all.
pub open spec fn capped(s: Seq<u8>, max: nat) -> Seq<u8> {
    if s.len() > max {
        s.take(max as int)
    } else {
        s
    }
}

/// The smaller of the two.
pub open spec fn smaller(a: int, b: int) -> int {
    if a <= b {
        a
    } else {
        b
    }
}

pub open spec fn adc_short() -> Fault {
    bad_fault("invalid ADC data (it ends in the middle of a code)"@)
}

/// A match of `len` bytes at `dist`: what `out` is after it.
pub open spec fn adc_match(out: Seq<u8>, len: int, dist: int, max: nat) -> Result<Seq<u8>, Fault> {
    if dist > out.len() {
        Err(bad_fault("invalid ADC data (a match reaches back before the start)"@))
    } else {
        Ok(copied(out, dist as nat, smaller(len, max - out.len()) as nat))
    }
}

/// What the codes of `input` from `at` on make of `out`, up to `max` bytes.
pub open spec fn adc_from(input: Seq<u8>, at: int, out: Seq<u8>, max: nat) -> Result<Seq<u8>, Fault>
    decreases input.len() - at,
{
    if at >= input.len() || at < 0 || out.len() >= max {
        Ok(out)
    } else {
        let b = input[at];
        if b >= 0x80 {
            // A run of literal bytes.
            let n = b - 0x80 + 1;
            if at + 1 + n > input.len() {
                Err(adc_short())
            } else {
                adc_from(input, at + 1 + n, capped(out + input.subrange(at + 1, at + 1 + n), max), max)
            }
        } else if b >= 0x40 {
            // A long match.
            if at + 3 > input.len() {
                Err(adc_short())
            } else {
                match adc_match(out, b - 0x40 + 4, input[at + 1] * 256 + input[at + 2] + 1, max) {
                    Ok(o) => adc_from(input, at + 3, o, max),
                    Err(f) => Err(f),
                }
            }
        } else {
            // A short match.
            if at + 2 > input.len() {
                Err(adc_short())
            } else {
                match adc_match(out, b / 4 + 3, b % 4 * 256 + input[at + 1] + 1, max) {
                    Ok(o) => adc_from(input, at + 2, o, max),
                    Err(f) => Err(f),
                }
            }
        }
    }
}

proof fn lemma_copied(out: Seq<u8>, dist: nat, n: nat)
    ensures
        copied(out, dist, n).len() == out.len() + n,
    decreases n,
{
    if n > 0 {
        lemma_copied(out, dist, (n - 1) as nat);
    }
}

/// Appends `n` bytes, each the one `dist` before it.
fn repeat(out: &mut Vec<u8>, dist: usize, n: usize)
    requires
        1 <= dist <= old(out)@.len(),
    ensures
        final(out)@ == copied(old(out)@, dist as nat, n as nat),
        final(out)@.len() == old(out)@.len() + n,
{
    let mut i: usize = 0;
    while i < n
        invariant
            i <= n,
            1 <= dist <= old(out)@.len(),
            out@.len() == old(out)@.len() + i,
            out@ == copied(old(out)@, dist as nat, i as nat),
        decreases n - i,
    {
        let byte: u8 = out[out.len() - dist];
        out.push(byte);
        i = i + 1;
    }
}

fn unadc(input: &[u8], max: usize) -> (r: Result<Vec<u8>, Error>)
    ensures
        match r {
            Ok(v) => adc_from(input@, 0, Seq::empty(), max as nat) == Ok::<Seq<u8>, Fault>(v@) && v@.len() <= max,
            Err(e) => adc_from(input@, 0, Seq::empty(), max as nat) == Err::<Seq<u8>, Fault>(e@),
        },
{
    let mut out: Vec<u8> = Vec::new();
    let mut at: usize = 0;
    while at < input.len() && out.len() < max
        invariant
            at <= input.len(),
            out@.len() <= max,
            adc_from(input@, 0, Seq::empty(), max as nat) == adc_from(input@, at as int, out@, max as nat),
        decreases input.len() - at,
    {
        let b: u8 = input[at];
        let left: usize = input.len() - at - 1;
        if b >= 0x80 {
            let n: usize = (b - 0x80) as usize + 1;
            if n > left {
                return Err(bad("invalid ADC data (it ends in the middle of a code)"));
            }
            let k: usize = if n <= max - out.len() {
                n
            } else {
                max - out.len()
            };
            let lit: &[u8] = vstd::slice::slice_subrange(input, at + 1, at + 1 + k);
            let ghost before = out@;
            push_bytes(&mut out, lit);
            proof {
                let all = before + input@.subrange(at + 1, at + 1 + n);
                assert(out@ == capped(all, max as nat));
            }
            at = at + 1 + n;
            continue;
        }
        let (len, dist, size): (usize, usize, usize) = if b >= 0x40 {
            if left < 2 {
                return Err(bad("invalid ADC data (it ends in the middle of a code)"));
            }
            ((b - 0x40) as usize + 4, input[at + 1] as usize * 256 + input[at + 2] as usize + 1, 3)
        } else {
            if left < 1 {
                return Err(bad("invalid ADC data (it ends in the middle of a code)"));
            }
            ((b / 4) as usize + 3, (b % 4) as usize * 256 + input[at + 1] as usize + 1, 2)
        };
        if dist > out.len() {
            return Err(bad("invalid ADC data (a match reaches back before the start)"));
        }
        let n: usize = if len <= max - out.len() {
            len
        } else {
            max - out.len()
        };
        repeat(&mut out, dist, n);
        at = at + size;
    }
    Ok(out)
}

// zstd: one frame after another (as QEMU writes them), until the cluster is full.

/// What the frames in `input` make of `out`, up to `max` bytes.
pub open spec fn zstd_from(input: Seq<u8>, out: Seq<u8>, max: nat) -> Result<Seq<u8>, Fault>
    decreases input.len(), max - out.len(),
{
    if out.len() >= max || input.len() == 0 {
        Ok(out)
    } else {
        match zstd_step(input, (max - out.len()) as nat) {
            Err(e) => Err(bad_fault("invalid zstd data ("@ + e + ")"@)),
            Ok((n, v)) => if n > input.len() || v.len() > max - out.len() || (n == 0 && v.len() == 0) {
                Ok(out + v)
            } else {
                zstd_from(input.skip(n as int), out + v, max)
            },
        }
    }
}

/// No memory for a decoder.
pub open spec fn no_decoder(codec: Codec) -> Fault {
    if codec == Codec::Bzip2 {
        bad_fault("bzip2 data doesn't decode: there is no memory for it"@)
    } else {
        bad_fault("zstd data doesn't decode: zstd could not allocate a decompression context"@)
    }
}

fn unzstd(input: &[u8], max: usize) -> (r: Result<Vec<u8>, Error>)
    ensures
        match r {
            Ok(v) => zstd_from(input@, Seq::empty(), max as nat) == Ok::<Seq<u8>, Fault>(v@) && v@.len() <= max,
            Err(e) => zstd_from(input@, Seq::empty(), max as nat) == Err::<Seq<u8>, Fault>(e@) || e@
                == no_decoder(Codec::Zstd),
        },
{
    let mut out: Vec<u8> = Vec::new();
    let mut pos: usize = 0;
    proof { assert(input@.skip(0) == input@); }
    while out.len() < max && pos < input.len()
        invariant
            pos <= input.len(),
            out@.len() <= max,
            zstd_from(input@, Seq::empty(), max as nat) == zstd_from(input@.skip(pos as int), out@, max as nat),
        decreases input.len() - pos, max - out@.len(),
    {
        let rest: &[u8] = vstd::slice::slice_subrange(input, pos, input.len());
        assert(rest@ == input@.skip(pos as int));
        match zstd_run(rest, max - out.len()) {
            None => {
                return Err(
                    bad("zstd data doesn't decode: zstd could not allocate a decompression context"),
                );
            },
            Some(Err(e)) => {
                let mut s: String = "invalid zstd data (".to_owned();
                s.append(e.as_str());
                s.append(")");
                return Err(bad(s.as_str()));
            },
            Some(Ok((n, v))) => {
                proof {
                    assert(rest@.skip(n as int) == input@.skip(pos + n));
                }
                let stuck: bool = n == 0 && v.len() == 0;
                push_bytes(&mut out, &v);
                if stuck {
                    return Ok(out);
                }
                pos = pos + n;
            },
        }
    }
    Ok(out)
}

/// An outside decoder's words about damaged data.
pub open spec fn invalid<T>(r: Result<T, Seq<char>>, name: Seq<char>) -> Result<T, Fault> {
    match r {
        Ok(v) => Ok(v),
        Err(e) => Err(bad_fault("invalid "@ + name + " data ("@ + e + ")"@)),
    }
}

/// What a block of compressed data decodes to, up to `max` bytes.
pub open spec fn decoded(codec: Codec, input: Seq<u8>, max: nat) -> Result<Seq<u8>, Fault> {
    match codec {
        Codec::Zlib => invalid(inflated(input, max, true), "deflate"@),
        Codec::Deflate => invalid(inflated(input, max, false), "deflate"@),
        Codec::Zstd => zstd_from(input, Seq::empty(), max),
        Codec::Bzip2 => match bunzipped(input, max) {
            Ok((v, _)) => Ok(v),
            Err(e) => invalid(Err::<Seq<u8>, Seq<char>>(e), "bzip2"@),
        },
        Codec::Lzfse => match unlzfsed(input, max) {
            Ok(v) => Ok(v),
            Err(Some(e)) => invalid(Err::<Seq<u8>, Seq<char>>(e), "LZFSE"@),
            Err(None) => Err(bad_fault("LZFSE data decodes to more than its block holds"@)),
        },
        Codec::Xz => invalid(unxzed(input, max), "xz"@),
        Codec::Adc => adc_from(input, 0, Seq::empty(), max),
    }
}

fn invalid_data(name: &str, e: &str) -> (r: Error)
    ensures
        r@ == bad_fault("invalid "@ + name@ + " data ("@ + e@ + ")"@),
{
    let mut s: String = "invalid ".to_owned();
    s.append(name);
    s.append(" data (");
    s.append(e);
    s.append(")");
    bad(s.as_str())
}

/// Decodes `input` into `out` (cleared first), producing at most `max` bytes. Stops early
/// where the data ends; the caller checks that enough came out. Nothing comes out of data that
/// doesn't decode.
pub fn decode(codec: Codec, input: &[u8], out: &mut Vec<u8>, max: usize) -> (r: Result<(), Error>)
    ensures
        match r {
            Ok(()) => decoded(codec, input@, max as nat) == Ok::<Seq<u8>, Fault>(final(out)@) && final(out)@.len()
                <= max,
            Err(e) => {
                &&& final(out)@.len() == 0
                &&& {
                    ||| decoded(codec, input@, max as nat) == Err::<Seq<u8>, Fault>(e@)
                    ||| (codec == Codec::Zstd || codec == Codec::Bzip2) && e@ == no_decoder(codec)
                }
            },
        },
{
    out.clear();
    let result: Result<Vec<u8>, Error> = match codec {
        Codec::Zlib => match inflate(input, max, true) {
            Ok(v) => Ok(v),
            Err(e) => Err(invalid_data("deflate", e.as_str())),
        },
        Codec::Deflate => match inflate(input, max, false) {
            Ok(v) => Ok(v),
            Err(e) => Err(invalid_data("deflate", e.as_str())),
        },
        Codec::Zstd => unzstd(input, max),
        Codec::Bzip2 => match bunzip2(input, max) {
            Some(Ok((v, _))) => Ok(v),
            Some(Err(e)) => Err(invalid_data("bzip2", e.as_str())),
            None => Err(bad("bzip2 data doesn't decode: there is no memory for it")),
        },
        Codec::Lzfse => match unlzfse(input, max) {
            Ok(v) => Ok(v),
            Err(Some(e)) => Err(invalid_data("LZFSE", e.as_str())),
            Err(None) => Err(bad("LZFSE data decodes to more than its block holds")),
        },
        Codec::Xz => match unxz(input, max) {
            Ok(v) => Ok(v),
            Err(e) => Err(invalid_data("xz", e.as_str())),
        },
        Codec::Adc => unadc(input, max),
    };
    match result {
        Ok(v) => {
            *out = v;
            Ok(())
        },
        Err(e) => Err(e),
    }
}

/// What an ADC code does to the output, up to `max` bytes: literals are the bytes after it, a
/// match repeats what lies as far back as it says.
pub open spec fn adc_does(input: Seq<u8>, at: int, out: Seq<u8>, grown: Seq<u8>, max: nat) -> bool {
    let b = input[at] as int;
    let literal = b >= 0x80;
    let len = if literal {
        b % 0x80 + 1
    } else if b >= 0x40 {
        b % 0x40 + 4
    } else {
        b / 4 + 3
    };
    let back = if b >= 0x40 {
        be_value(input.subrange(at + 1, at + 3)) + 1
    } else {
        be_value(seq![(b % 4) as u8, input[at + 1]]) + 1
    };
    &&& out.is_prefix_of(grown)
    &&& grown.len() == (if out.len() + len <= max {
        out.len() + len
    } else {
        max as int
    })
    &&& literal ==> forall|j: int| out.len() <= j < grown.len() ==> #[trigger] grown[j] == input[at + 1 + j - out.len()]
    &&& !literal ==> back <= out.len() && forall|j: int|
        out.len() <= j < grown.len() ==> #[trigger] grown[j] == grown[j - back]
}

/// The bytes that an ADC code takes.
pub open spec fn adc_takes(b: u8) -> int {
    if b >= 0x80 {
        b - 0x7e
    } else if b >= 0x40 {
        3
    } else {
        2
    }
}

proof fn lemma_repeats(out: Seq<u8>, dist: nat, n: nat)
    requires
        1 <= dist <= out.len(),
    ensures
        out.is_prefix_of(copied(out, dist, n)),
        copied(out, dist, n).len() == out.len() + n,
        forall|j: int|
            out.len() <= j < out.len() + n ==> #[trigger] copied(out, dist, n)[j] == copied(out, dist, n)[j - dist],
    decreases n,
{
    if n > 0 {
        lemma_repeats(out, dist, (n - 1) as nat);
    }
}

/// ADC data that decodes does so code by code, each of which does what the format says.
pub proof fn law_adc_codes_do_as_the_format_says(input: Seq<u8>, at: int, out: Seq<u8>, max: nat) -> (grown: Seq<u8>)
    requires
        0 <= at < input.len(),
        out.len() < max,
        adc_from(input, at, out, max) is Ok,
    ensures
        at + adc_takes(input[at]) <= input.len(),
        adc_does(input, at, out, grown, max),
        adc_from(input, at, out, max) == adc_from(input, at + adc_takes(input[at]), grown, max),
{
    let b = input[at];
    reveal_with_fuel(be_value, 3);
    if b >= 0x80 {
        capped(out + input.subrange(at + 1, at + 1 + (b - 0x80 + 1)), max)
    } else if b >= 0x40 {
        let dist = input[at + 1] * 256 + input[at + 2] + 1;
        let n = smaller(b - 0x40 + 4, max - out.len()) as nat;
        lemma_repeats(out, dist as nat, n);
        copied(out, dist as nat, n)
    } else {
        let dist = b % 4 * 256 + input[at + 1] + 1;
        let n = smaller(b / 4 + 3, max - out.len()) as nat;
        lemma_repeats(out, dist as nat, n);
        copied(out, dist as nat, n)
    }
}

/// ADC data ends where its codes do, or where enough is decoded.
pub proof fn law_adc_data_ends(input: Seq<u8>, out: Seq<u8>, at: int, max: nat)
    requires
        at == input.len() || out.len() >= max,
    ensures
        adc_from(input, at, out, max) == Ok::<Seq<u8>, Fault>(out),
{
}

} // verus!
