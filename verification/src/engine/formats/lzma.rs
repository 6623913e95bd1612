//! LZMA "alone" (.lzma, from `xz --format=lzma` or the LZMA SDK): a 13-byte header
//! (properties, dictionary size, uncompressed size or "unknown"), then one LZMA stream.
//!
//! Its "magic number" is weak (usually 5D 00 00 …), so a file only counts as .lzma when the
//! header is plausible the way xz checks it (lc + lp ≤ 4, a dictionary size of 2^n or
//! 2^n + 2^(n-1), a sane size), the range coder's first byte is zero, and the first 64 KiB
//! actually decode.

use vstd::prelude::*;
use vstd::string::*;
use std::io::Error as IoError;
use crate::engine::formats::source::{
    bad, bytes_at, is_power_of_two, law_fields_are_numbers, le32, le32_at, le64, le64_at, le_value, power_of_two,
    size_text, size_text_of, unsupported,
};
use crate::error::{bad_fault, reading_error, reading_fault, unsupported_fault, Error, Fault};

verus! {

/// How much a trial decode needs to produce (less if the stream ends sooner).
pub const TRIAL: usize = 0x1_0000;

/// The biggest dictionary that is allocated.
pub const MAX_DICT: u32 = 0x6000_0000;

#[derive(Clone, Copy, Debug, PartialEq, Eq, Structural)]
pub struct Header {
    pub props: u8,
    pub dict: u32,
    /// None when the stream ends with an end marker instead.
    pub size: Option<u64>,
}

/// 2^n or 2^n + 2^(n-1), or "unknown".
pub open spec fn dict_like(d: u32) -> bool {
    d == 0 || d == u32::MAX || power_of_two(d as nat) || (d % 3 == 0 && power_of_two(d as nat / 3))
}

/// 2^n or 2^n + 2^(n-1) (or "unknown"), as xz requires to tell .lzma files from other data.
pub fn plausible_dict(d: u32) -> (r: bool)
    ensures
        r == dict_like(d),
{
    d == 0 || d == u32::MAX || is_power_of_two(d as u64) || (d % 3 == 0 && is_power_of_two((d / 3) as u64))
}

/// The header at the start of a file, if it makes sense.
pub open spec fn header_of(head: Seq<u8>) -> Option<Header> {
    let props = head[0];
    let dict = le32_at(head, 1);
    let size = le64_at(head, 5);
    // Nothing makes dictionaries under 4 KiB, and an empty image is not worth claiming.
    if head.len() < 14 || props >= 225 || head[13] != 0 || props % 9 + props / 9 % 5 > 4 || dict < 4096
        || !dict_like(dict) || !(size == u64::MAX || 1 <= size < 0x1_0000_0000_0000) {
        None
    } else {
        Some(
            Header {
                props,
                dict,
                size: if size == u64::MAX {
                    None
                } else {
                    Some(size)
                },
            },
        )
    }
}

pub fn header(head: &[u8]) -> (r: Option<Header>)
    ensures
        r == header_of(head@),
{
    if head.len() < 14 || head[0] >= 225 || head[13] != 0 {
        return None;
    }
    let props: u8 = head[0];
    let lc: u8 = props % 9;
    let lp: u8 = props / 9 % 5;
    let dict: u32 = le32(head, 1);
    let size: u64 = le64(head, 5);
    let sane_size: bool = size == u64::MAX || (1 <= size && size < 0x1_0000_0000_0000);
    if lc + lp > 4 || dict < 4096 || !plausible_dict(dict) || !sane_size {
        return None;
    }
    Some(
        Header {
            props,
            dict,
            size: if size == u64::MAX {
                None
            } else {
                Some(size)
            },
        },
    )
}

/// What `lzma_rust2::LzmaReader` reads of a raw LZMA stream that decodes to `size` bytes
/// (`u64::MAX` if that is not known), up to `max` bytes; or what it says of the data, and
/// whether it says that while reading.
pub uninterp spec fn unlzmaed(stream: Seq<u8>, size: u64, props: u8, dict: u32, max: nat) -> Result<
    Seq<u8>,
    (bool, Fault),
>;

/// `lzma_rust2::LzmaReader::new_with_props` over `stream`, read to its end or to `max`
/// bytes: the bytes; or its error, and whether that came while reading.
#[verifier::external_body]
fn unlzma(stream: &[u8], size: u64, props: u8, dict: u32, max: usize) -> (r: Result<Vec<u8>, (bool, IoError)>)
    ensures
        match r {
            Ok(v) => unlzmaed(stream@, size, props, dict, max as nat) == Ok::<Seq<u8>, (bool, Fault)>(v@)
                && v@.len() <= max,
            Err(e) => unlzmaed(stream@, size, props, dict, max as nat) == Err::<Seq<u8>, (bool, Fault)>(
                (e.0, reading_fault(e.1)),
            ),
        },
{
    let mut out = Vec::new();
    let lz = lzma_rust2::LzmaReader::new_with_props(stream, size, props, dict, None);
    let mut lz = std::io::Read::take(lz.map_err(|e| (false, e))?, max as u64);
    std::io::Read::read_to_end(&mut lz, &mut out).map_err(|e| (true, e))?;
    Ok(out)
}

/// How much of a stream a trial decode wants.
pub open spec fn trial_want(h: Header) -> nat {
    match h.size {
        Some(s) => if s < TRIAL {
            s as nat
        } else {
            TRIAL as nat
        },
        None => TRIAL as nat,
    }
}

/// The dictionary for a trial decode. Up to 64 KiB of output never reaches further back than
/// that, so a small dictionary decodes it the same.
pub open spec fn trial_dict(h: Header) -> u32 {
    if h.dict > 0x10_0000 {
        0x10_0000
    } else {
        h.dict
    }
}

/// Is what came out of a trial decode enough, or all there is of a stream that ended
/// properly?
pub open spec fn trial_passes(h: Header, out: Seq<u8>) -> bool {
    out.len() >= trial_want(h) || h.size is None || h.size == Some(out.len() as u64)
}

/// Does a trial decode that made `out` show that this is an .lzma stream?
pub fn passes(h: &Header, out: &[u8]) -> (r: bool)
    ensures
        r == trial_passes(*h, out@),
{
    let want: usize = match h.size {
        Some(s) => if s < TRIAL as u64 {
            s as usize
        } else {
            TRIAL
        },
        None => TRIAL,
    };
    if out.len() >= want {
        return true;
    }
    match h.size {
        None => true,
        Some(s) => s == out.len() as u64,
    }
}

/// What the first bytes decode to, if this really is an .lzma stream. `stream` is what comes
/// after the 13 bytes of header.
pub open spec fn trial_of(head: Seq<u8>, stream: Seq<u8>) -> Option<Seq<u8>> {
    match header_of(head) {
        None => None,
        Some(h) => match unlzmaed(
            stream,
            match h.size {
                Some(s) => s,
                None => u64::MAX,
            },
            h.props,
            trial_dict(h),
            trial_want(h),
        ) {
            Err(_) => None,
            Ok(out) => if trial_passes(h, out) {
                Some(out)
            } else {
                None
            },
        },
    }
}

/// Tries the first bytes: Some(what they decode to) if this really is an .lzma stream.
/// `stream` is what comes after the 13 bytes of header.
pub fn trial(head: &[u8], stream: &[u8]) -> (r: Option<Vec<u8>>)
    ensures
        match r {
            Some(v) => trial_of(head@, stream@) == Some(v@),
            None => trial_of(head@, stream@) is None,
        },
{
    let h: Header = match header(head) {
        Some(h) => h,
        None => {
            return None;
        },
    };
    let dict: u32 = if h.dict > 0x10_0000 {
        0x10_0000
    } else {
        h.dict
    };
    let want: usize = match h.size {
        Some(s) => if s < TRIAL as u64 {
            s as usize
        } else {
            TRIAL
        },
        None => TRIAL,
    };
    let size: u64 = match h.size {
        Some(s) => s,
        None => u64::MAX,
    };
    match unlzma(stream, size, h.props, dict, want) {
        Err(_) => None,
        Ok(out) => {
            if passes(&h, &out) {
                Some(out)
            } else {
                None
            }
        },
    }
}

/// Why a stream with this header is not decoded, if so: its dictionary needs too much memory.
pub open spec fn refused(h: Header) -> Option<Fault> {
    if h.dict > MAX_DICT {
        Some(
            unsupported_fault(
                "this .lzma file needs a "@ + size_text_of(h.dict as nat)
                    + " dictionary, more memory than DD-GUI allows"@,
            ),
        )
    } else {
        None
    }
}

/// Checks that the stream after a header can be decoded.
pub fn decoder(h: &Header) -> (r: Result<(), Error>)
    ensures
        match r {
            Ok(()) => refused(*h) is None,
            Err(e) => refused(*h) == Some(e@),
        },
{
    if h.dict > MAX_DICT {
        let mut s: String = "this .lzma file needs a ".to_owned();
        s.append(size_text(h.dict as u64).as_str());
        s.append(" dictionary, more memory than DD-GUI allows");
        return Err(unsupported(s.as_str()));
    }
    Ok(())
}

/// What a decoder's complaint about an LZMA stream means.
pub open spec fn damaged_fault(why: Seq<char>) -> Fault {
    bad_fault("the LZMA data is damaged ("@ + why + ")"@)
}

/// What a decoder's complaint about an LZMA stream means.
pub fn damaged(why: &str) -> (e: Error)
    ensures
        e@ == damaged_fault(why@),
{
    let mut s: String = "the LZMA data is damaged (".to_owned();
    s.append(why);
    s.append(")");
    bad(s.as_str())
}

/// What an .lzma file holds: its header, its decoder's limits, and what the decoder makes of
/// the stream after the header.
pub open spec fn opened(file: Seq<u8>) -> Result<Seq<u8>, Fault> {
    match header_of(file) {
        None => Err(bad_fault("the .lzma header is damaged"@)),
        Some(h) => match refused(h) {
            Some(f) => Err(f),
            None => match unlzmaed(
                file.skip(13),
                match h.size {
                    Some(s) => s,
                    None => u64::MAX,
                },
                h.props,
                h.dict,
                usize::MAX as nat,
            ) {
                Ok(v) => Ok(v),
                Err((false, f)) => Err(damaged_fault(f.what)),
                Err((true, f)) => Err(f),
            },
        },
    }
}

/// What an .lzma file holds.
pub fn open(file: &[u8]) -> (r: Result<Vec<u8>, Error>)
    ensures
        match r {
            Ok(v) => opened(file@) == Ok::<Seq<u8>, Fault>(v@),
            Err(e) => opened(file@) == Err::<Seq<u8>, Fault>(e@),
        },
{
    let h: Header = match header(file) {
        Some(h) => h,
        None => {
            return Err(bad("the .lzma header is damaged"));
        },
    };
    match decoder(&h) {
        Ok(()) => {},
        Err(e) => {
            return Err(e);
        },
    }
    let size: u64 = match h.size {
        Some(s) => s,
        None => u64::MAX,
    };
    let stream: Vec<u8> = bytes_at(file, 13, file.len() - 13);
    assert(stream@ =~= file@.skip(13));
    match unlzma(&stream, size, h.props, h.dict, usize::MAX) {
        Ok(v) => Ok(v),
        Err((reading, e)) => {
            let error: Error = reading_error(e);
            if reading {
                Err(error)
            } else {
                Err(damaged(error.message()))
            }
        },
    }
}

/// A header is read as the format lays it out: the properties, the dictionary's size and the
/// size of the content, in all their bytes; a size of all ones is none.
pub proof fn law_headers_are_as_the_format_says(head: Seq<u8>)
    ensures
        header_of(head) matches Some(h) ==> {
            let size = le_value(head.subrange(5, 13));
            &&& head.len() >= 14
            &&& h.props == head[0]
            &&& h.dict == le_value(head.subrange(1, 5))
            &&& h.size is None <==> size == 0xffff_ffff_ffff_ffff
            &&& h.size matches Some(n) ==> n == size
        },
{
    law_fields_are_numbers(head, 1);
    law_fields_are_numbers(head, 5);
}

} // verus!
