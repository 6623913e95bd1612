//! Disk image containers (DMG, VHD, VHDX, VMDK, QCOW2) and more compression and archive
//! formats (bzip2, lz4, lzma, 7z, tar), decoded to the raw disk they hold.
//!
//! | format | reads | refuses (with an explanation) |
//! |---|---|---|
//! | DMG (UDIF) | UDRW/UDRO (raw), UDCO (ADC), UDZO (zlib), UDBZ (bzip2), ULFO (LZFSE), ULMO (LZMA/xz); XML or resource-fork tables; CRC-32 checked | encrypted, sparse images and bundles, segmented |
//! | VHD | fixed, dynamic (sector bitmaps honoured) | differencing |
//! | VHDX | fixed, dynamic, 512/4096-byte sectors; a pending log is replayed in memory | differencing |
//! | VMDK | monolithicSparse, streamOptimized | descriptor-only (flat, split, VMFS), snapshots, COWD/SEsparse |
//! | QCOW2 | v2, v3, compressed clusters (deflate, zstd), zero clusters, extended L2 entries | backing files, encryption, external data files |
//! | bzip2 | multi-stream | |
//! | lz4 | frames (linked or not), skippable frames, legacy format | dictionaries |
//! | lzma | "LZMA alone", known or unknown size | |
//! | 7z | the first file | encryption |
//! | tar | the first regular file: ustar, GNU, pax, sparse files | |
//!
//! A tar inside bzip2, lz4, lzma or 7z gives its first file too (`untar` does the same for
//! gzip, xz, zstd and zip). Unallocated space reads as zeros everywhere. Damaged files give
//! errors, never panics or huge allocations: tables are read a window at a time and every
//! size from the file is checked before it is used.

pub mod bz2;
pub mod codec;
pub mod dmg;
pub mod lz4;
pub mod lzma;
pub mod qcow2;
pub mod sevenz;
pub mod source;
pub mod tar;
pub mod vdisk;
pub mod vhd;
pub mod vhdx;
pub mod vmdk;

use vstd::prelude::*;
use vstd::string::*;
use crate::engine::ImageFormat;
use crate::engine::formats::source::{bad, has_bytes, holds, plain, Layers, Loaded, Source, Stop};
use crate::error::{bad_fault, Error, Fault, Kind};

verus! {

/// A format this module handles, as `detect` found it.
#[derive(Clone, Copy, Debug, PartialEq, Eq, Structural)]
pub struct Detected {
    pub format: ImageFormat,
    /// The raw disk's size, when it is cheap to learn (virtual disks record it).
    pub raw_size: Option<u64>,
}

/// What `detect` finds.
#[derive(Clone, Copy, Debug, PartialEq, Eq, Structural)]
pub enum Finding {
    /// None of the formats of this module.
    No,
    Is(Detected),
    /// An archive or a compressed stream. Its raw size goes by what it holds: `inside` tells.
    Holds(ImageFormat),
}

/// How much of what a stream holds is decoded to see if that is a tar.
pub const START: usize = 0x1_0000;

/// How much of an .lzma stream a trial decode is given.
pub const TRIAL_INPUT: usize = 0x10_0000;

/// The raw size of a stream that starts with `start` and holds `whole` bytes: the first
/// file's size if it is a tar (None if its headers go past `start`), else `whole`.
pub open spec fn size_inside(start: Seq<u8>, whole: Option<u64>) -> Option<u64> {
    match tar::probed(start) {
        Some(size) => size,
        None => whole,
    }
}

/// The raw size of a stream that starts with `start` and holds `whole` bytes: the first
/// file's size if it is a tar (None if its headers go past `start`), else `whole`.
pub fn inner_size(start: &[u8], whole: Option<u64>) -> (r: Option<u64>)
    ensures
        r == size_inside(start@, whole),
{
    match tar::probe(start) {
        Some(size) => size,
        None => whole,
    }
}

/// What is found of an archive or a compressed stream once the start of what it holds was
/// decoded (None if that failed); it holds `whole` bytes, if that is known.
pub fn inside(format: ImageFormat, start: Option<&[u8]>, whole: Option<u64>) -> (d: Detected)
    ensures
        d.format == format,
        d.raw_size == (match start {
            Some(s) => size_inside(s@, whole),
            None => None,
        }),
{
    Detected {
        format,
        raw_size: match start {
            Some(s) => inner_size(s, whole),
            None => None,
        },
    }
}

/// What is found of a 7z archive, all of it at hand.
pub fn inside_7z(file: &[u8]) -> (d: Detected)
    ensures
        d.format == ImageFormat::SevenZ,
        d.raw_size == (match sevenz::peeked(file@) {
            Ok((size, head)) => size_inside(head, Some(size)),
            Err(_) => None,
        }),
{
    match sevenz::peek(file) {
        Ok((size, head)) => inside(ImageFormat::SevenZ, Some(&head), Some(size)),
        Err(_) => inside(ImageFormat::SevenZ, None, None),
    }
}

/// Is `r` the first bytes of what a compressed stream holds, `most` of them at most, or what is
/// wrong with it?
pub open spec fn starts_with_stream(file: Seq<u8>, format: ImageFormat, most: nat, r: Result<Vec<u8>, Error>) -> bool {
    match format {
        ImageFormat::Bzip2 => bz2::bunzips(file, most, r),
        ImageFormat::Lz4 => match lz4::contents_of(lz4::fresh(), file, most) {
            Ok(s) => r matches Ok(v) && v@ == s,
            Err(f) => r matches Err(e) && e@ == f,
        },
        _ => r matches Err(e) && e@ == not_a_stream(format),
    }
}

/// What a format is called.
pub open spec fn called(format: ImageFormat) -> Seq<char> {
    match format {
        ImageFormat::Raw => "Raw"@,
        ImageFormat::Gzip => "Gzip"@,
        ImageFormat::Xz => "Xz"@,
        ImageFormat::Zstd => "Zstd"@,
        ImageFormat::Zip => "Zip"@,
        ImageFormat::Bzip2 => "Bzip2"@,
        ImageFormat::Lz4 => "Lz4"@,
        ImageFormat::Lzma => "Lzma"@,
        ImageFormat::SevenZ => "SevenZ"@,
        ImageFormat::Tar => "Tar"@,
        ImageFormat::Dmg => "Dmg"@,
        ImageFormat::Vhd => "Vhd"@,
        ImageFormat::Vhdx => "Vhdx"@,
        ImageFormat::Vmdk => "Vmdk"@,
        ImageFormat::Qcow2 => "Qcow2"@,
    }
}

fn name(format: ImageFormat) -> (s: &'static str)
    ensures
        s@ == called(format),
{
    match format {
        ImageFormat::Raw => "Raw",
        ImageFormat::Gzip => "Gzip",
        ImageFormat::Xz => "Xz",
        ImageFormat::Zstd => "Zstd",
        ImageFormat::Zip => "Zip",
        ImageFormat::Bzip2 => "Bzip2",
        ImageFormat::Lz4 => "Lz4",
        ImageFormat::Lzma => "Lzma",
        ImageFormat::SevenZ => "SevenZ",
        ImageFormat::Tar => "Tar",
        ImageFormat::Dmg => "Dmg",
        ImageFormat::Vhd => "Vhd",
        ImageFormat::Vhdx => "Vhdx",
        ImageFormat::Vmdk => "Vmdk",
        ImageFormat::Qcow2 => "Qcow2",
    }
}

pub open spec fn not_a_stream(format: ImageFormat) -> Fault {
    Fault { kind: Kind::Other, what: called(format) + " isn't a stream format"@ }
}

/// Decodes a compressed stream, all of it at hand, up to `most` bytes.
pub fn decoder(file: &[u8], format: ImageFormat, most: usize) -> (r: Result<Vec<u8>, Error>)
    requires
        most <= lz4::MOST,
    ensures
        starts_with_stream(file@, format, most as nat, r),
{
    match format {
        ImageFormat::Bzip2 => bz2::bunzip(file, most),
        ImageFormat::Lz4 => lz4::unlz4(file, most),
        _ => {
            let mut what: String = name(format).to_owned();
            what.append(" isn't a stream format");
            Err(Error { kind: Kind::Other, what })
        },
    }
}

/// The first bytes that a compressed stream decodes to, to see if it is a tar.
pub fn decoded_start(file: &[u8], format: ImageFormat) -> (r: Option<Vec<u8>>)
    ensures
        match r {
            Some(v) => starts_with_stream(file@, format, START as nat, Ok(v)),
            None => exists|e: Error| #[trigger] starts_with_stream(file@, format, START as nat, Err(e)),
        },
{
    match decoder(file, format, START) {
        Ok(v) => Some(v),
        Err(e) => {
            assert(starts_with_stream(file@, format, START as nat, Err(e)));
            None
        },
    }
}

/// A virtual disk that says what it is at its start.
pub open spec fn head_finding(src: Layers, file: Seq<u8>, head: Seq<u8>) -> Option<Detected> {
    if holds(head, 0, vhdx::SIGNATURE@) {
        Some(Detected { format: ImageFormat::Vhdx, raw_size: vhdx::sure_size(src, file) })
    } else if holds(head, 0, qcow2::MAGIC@) {
        Some(
            Detected {
                format: ImageFormat::Qcow2,
                raw_size: match qcow2::header_of(src, file) {
                    Ok(h) => Some(h.size),
                    Err(_) => None,
                },
            },
        )
    } else if holds(head, 0, vmdk::MAGIC@) {
        Some(
            Detected {
                format: ImageFormat::Vmdk,
                raw_size: match vmdk::sparse_of(src, file) {
                    Ok(h) => Some((h.capacity * 512) as u64),
                    Err(_) => None,
                },
            },
        )
    } else if holds(head, 0, vmdk::COWD@) || holds(head, 0, vmdk::SESPARSE@) || vmdk::is_descriptor(head) {
        Some(Detected { format: ImageFormat::Vmdk, raw_size: None })
    } else {
        vhd::head_detected(head)
    }
}

/// A virtual disk that says what it is at its end: DMG's "koly", a fixed VHD's footer.
pub open spec fn tail_finding(src: Layers, file: Seq<u8>, head: Seq<u8>) -> Result<Option<Detected>, Fault> {
    match dmg::detected(src, file, head) {
        Err(f) => Err(f),
        Ok(Some(d)) => Ok(Some(d)),
        Ok(None) => vhd::tail_detected(src, file),
    }
}

/// What a trial decode as .lzma gives.
pub open spec fn lzma_start(src: Layers, file: Seq<u8>, head: Seq<u8>) -> Option<Seq<u8>> {
    match src.read_upto(file, 13, TRIAL_INPUT as nat) {
        Err(_) => None,
        Ok(stream) => lzma::trial_of(head, stream),
    }
}

/// Archives and compressed streams. Their raw size is the size of what they hold, or, when
/// that is a tar, of the tar's first file.
pub open spec fn stream_finding(src: Layers, file: Seq<u8>, head: Seq<u8>) -> Result<Finding, Fault> {
    if holds(head, 0, sevenz::SIGNATURE@) {
        Ok(Finding::Holds(ImageFormat::SevenZ))
    } else if tar::header_like(head) {
        match src.read_upto(file, 0, START as nat) {
            Err(f) => Err(f),
            Ok(start) => Ok(
                Finding::Is(
                    Detected {
                        format: ImageFormat::Tar,
                        raw_size: match tar::probed(start) {
                            Some(size) => size,
                            None => None,
                        },
                    },
                ),
            ),
        }
    } else if bz2::looks_bzip2(head) {
        Ok(Finding::Holds(ImageFormat::Bzip2))
    } else if lz4::detected(src, file, head) {
        Ok(Finding::Holds(ImageFormat::Lz4))
    } else {
        // Last, as its magic number is weak: only a header that makes sense and a first
        // stretch that decodes.
        match lzma_start(src, file, head) {
            None => Ok(Finding::No),
            Some(start) => Ok(
                Finding::Is(
                    Detected {
                        format: ImageFormat::Lzma,
                        raw_size: size_inside(
                            start,
                            match lzma::header_of(head) {
                                Some(h) => h.size,
                                None => None,
                            },
                        ),
                    },
                ),
            ),
        }
    }
}

/// The format of a file that starts with `head`.
pub open spec fn finding(src: Layers, file: Seq<u8>, head: Seq<u8>) -> Result<Finding, Fault> {
    match head_finding(src, file, head) {
        Some(d) => Ok(Finding::Is(d)),
        None => match tail_finding(src, file, head) {
            Err(f) => Err(f),
            Ok(Some(d)) => Ok(Finding::Is(d)),
            Ok(None) => stream_finding(src, file, head),
        },
    }
}

fn detect_head(src: &Source, have: &Loaded, head: &[u8]) -> (r: Result<Option<Detected>, Stop>)
    requires
        src@.wf(),
    ensures
        match r {
            Ok(d) => forall|file: Seq<u8>| #[trigger]
                have.shows(src@, file) ==> d == head_finding(src@, file, head@),
            Err(Stop::Failed(_)) => false,
            Err(Stop::Need { offset, len }) => have.lacks(src@, offset, len),
        },
{
    match vhdx::detect(src, have, head) {
        Ok(None) => {},
        r => {
            return r;
        },
    }
    match qcow2::detect(src, have, head) {
        Ok(None) => {},
        r => {
            return r;
        },
    }
    match vmdk::detect(src, have, head) {
        Ok(None) => {},
        r => {
            return r;
        },
    }
    Ok(vhd::detect_head(head))
}

fn detect_tail(src: &Source, have: &Loaded, head: &[u8]) -> (r: Result<Option<Detected>, Stop>)
    requires
        src@.wf(),
    ensures
        match r {
            Ok(d) => forall|file: Seq<u8>| #[trigger]
                have.shows(src@, file) ==> tail_finding(src@, file, head@) == Ok::<Option<Detected>, Fault>(d),
            Err(Stop::Failed(e)) => forall|file: Seq<u8>| #[trigger]
                have.shows(src@, file) ==> tail_finding(src@, file, head@) == Err::<Option<Detected>, Fault>(e@),
            Err(Stop::Need { offset, len }) => have.lacks(src@, offset, len),
        },
{
    match dmg::detect(src, have, head) {
        Ok(None) => {},
        r => {
            return r;
        },
    }
    vhd::detect_tail(src, have)
}

fn detect_stream(src: &Source, have: &Loaded, head: &[u8]) -> (r: Result<Finding, Stop>)
    requires
        src@.wf(),
    ensures
        match r {
            Ok(v) => forall|file: Seq<u8>| #[trigger]
                have.shows(src@, file) ==> stream_finding(src@, file, head@) == Ok::<Finding, Fault>(v),
            Err(Stop::Failed(e)) => forall|file: Seq<u8>| #[trigger]
                have.shows(src@, file) ==> stream_finding(src@, file, head@) == Err::<Finding, Fault>(e@),
            Err(Stop::Need { offset, len }) => have.lacks(src@, offset, len),
        },
{
    if has_bytes(head, 0, &sevenz::SIGNATURE) {
        return Ok(Finding::Holds(ImageFormat::SevenZ));
    }
    if tar::is_header(head) {
        let start: Vec<u8> = match src.read_upto(have, 0, START) {
            Ok(v) => v,
            Err(s) => {
                return Err(s);
            },
        };
        let raw_size: Option<u64> = match tar::probe(&start) {
            Some(size) => size,
            None => None,
        };
        return Ok(Finding::Is(Detected { format: ImageFormat::Tar, raw_size }));
    }
    if bz2::detect(head) {
        return Ok(Finding::Holds(ImageFormat::Bzip2));
    }
    match lz4::detect(src, have, head) {
        Ok(true) => {
            return Ok(Finding::Holds(ImageFormat::Lz4));
        },
        Ok(false) => {},
        Err(s) => {
            return Err(s);
        },
    }
    if lzma::header(head).is_none() {
        return Ok(Finding::No);
    }
    let stream: Vec<u8> = match src.read_upto(have, 13, TRIAL_INPUT) {
        Ok(v) => v,
        Err(Stop::Failed(_)) => {
            return Ok(Finding::No);
        },
        Err(Stop::Need { offset, len }) => {
            return Err(Stop::Need { offset, len });
        },
    };
    match lzma::trial(head, &stream) {
        None => Ok(Finding::No),
        Some(start) => {
            let size: Option<u64> = match lzma::header(head) {
                Some(h) => h.size,
                None => None,
            };
            let raw_size: Option<u64> = inner_size(&start, size);
            Ok(Finding::Is(Detected { format: ImageFormat::Lzma, raw_size }))
        },
    }
}

/// Recognises the formats this module handles in a file of `size` bytes. `head` is the start
/// of the file (up to 4 KiB).
///
/// Nothing else is one of them, not gzip, xz, zstd or zip either. Ask this before looking
/// for those: a DMG's data can start like xz (ULMO) or bzip2 (UDBZ).
pub fn detect(size: u64, have: &Loaded, head: &[u8]) -> (r: Result<Finding, Stop>)
    ensures
        match r {
            Ok(v) => forall|file: Seq<u8>| #[trigger]
                have.shows(plain(size), file) ==> finding(plain(size), file, head@) == Ok::<Finding, Fault>(v),
            Err(Stop::Failed(e)) => forall|file: Seq<u8>| #[trigger]
                have.shows(plain(size), file) ==> finding(plain(size), file, head@) == Err::<Finding, Fault>(e@),
            Err(Stop::Need { offset, len }) => have.lacks(plain(size), offset, len),
        },
{
    let src: Source = Source::new(size);
    // Magic numbers at the start that nothing else has.
    match detect_head(&src, have, head) {
        Ok(Some(d)) => {
            return Ok(Finding::Is(d));
        },
        Ok(None) => {},
        Err(s) => {
            return Err(s);
        },
    }
    // Trailers at the end.
    match detect_tail(&src, have, head) {
        Ok(Some(d)) => {
            return Ok(Finding::Is(d));
        },
        Ok(None) => {},
        Err(s) => {
            return Err(s);
        },
    }
    detect_stream(&src, have, head)
}

/// What is found of a file that starts as an Apple disk image's data may (like xz or bzip2)
/// and ends as one does: that it is one.
pub proof fn law_trailers_come_before_streams(src: Layers, file: Seq<u8>, head: Seq<u8>, d: Detected)
    requires
        head_finding(src, file, head) is None,
        tail_finding(src, file, head) == Ok::<Option<Detected>, Fault>(Some(d)),
    ensures
        finding(src, file, head) == Ok::<Finding, Fault>(Finding::Is(d)),
{
}

// What a stream holds.

/// What is inside a stream that starts with `data`: the first file of a tar, or (None) the
/// stream itself.
pub open spec fn untarred(data: Seq<u8>) -> Result<Option<tar::Found>, Fault> {
    if !tar::header_like(data) {
        Ok(None)
    } else {
        match tar::first_of(data) {
            Ok(f) => Ok(Some(f)),
            Err(f) => Err(f),
        }
    }
}

/// If the stream that starts with `data` (e.g. a decompressed .tar.gz) holds a tar archive:
/// the first regular file in it. Otherwise None: the stream itself is what it holds. `ended`
/// if `data` is all of the stream.
pub fn untar(data: &[u8], ended: bool) -> (r: Result<Option<tar::Entry>, tar::Halt>)
    ensures
        match r {
            Ok(Some(e)) => e.wf() && untarred(data@) == Ok::<Option<tar::Found>, Fault>(Some(e.found())),
            Ok(None) => untarred(data@) == Ok::<Option<tar::Found>, Fault>(None) && (ended || data@.len()
                >= tar::BLOCK),
            Err(tar::Halt::More) => !ended && (data@.len() < tar::BLOCK || untarred(data@) == Err::<
                Option<tar::Found>,
                Fault,
            >(tar::cut_short())),
            Err(tar::Halt::Failed(e)) => untarred(data@) == Err::<Option<tar::Found>, Fault>(e@),
        },
        ended ==> !(r matches Err(tar::Halt::More)),
{
    if !ended && data.len() < tar::BLOCK {
        return Err(tar::Halt::More);
    }
    if !tar::is_header(data) {
        return Ok(None);
    }
    match tar::first_file(data, ended) {
        Ok(e) => Ok(Some(e)),
        Err(h) => Err(h),
    }
}

/// How a format is decoded.
#[derive(Clone, Copy, Debug, PartialEq, Eq, Structural)]
pub enum Way {
    /// A virtual disk: its blocks are anywhere in the file.
    Disk,
    /// A tar archive.
    Archive,
    /// A stream, in which a tar may be.
    Stream,
    /// Not by this module.
    Elsewhere,
}

pub open spec fn way_of(format: ImageFormat) -> Way {
    match format {
        ImageFormat::Dmg | ImageFormat::Vhd | ImageFormat::Vhdx | ImageFormat::Vmdk | ImageFormat::Qcow2 => Way::Disk,
        ImageFormat::Tar => Way::Archive,
        ImageFormat::Bzip2 | ImageFormat::Lz4 | ImageFormat::Lzma | ImageFormat::SevenZ => Way::Stream,
        _ => Way::Elsewhere,
    }
}

pub fn way(format: ImageFormat) -> (w: Way)
    ensures
        w == way_of(format),
{
    match format {
        ImageFormat::Dmg | ImageFormat::Vhd | ImageFormat::Vhdx | ImageFormat::Vmdk | ImageFormat::Qcow2 => Way::Disk,
        ImageFormat::Tar => Way::Archive,
        ImageFormat::Bzip2 | ImageFormat::Lz4 | ImageFormat::Lzma | ImageFormat::SevenZ => Way::Stream,
        _ => Way::Elsewhere,
    }
}

/// The size of what an opened stream of `format` gives: of the first file of the tar in it,
/// or of the stream itself if that is known. A tar archive must be one.
pub fn opened_size(format: ImageFormat, tar_size: Option<u64>, whole: Option<u64>) -> (r: Result<
    Option<u64>,
    Error,
>)
    ensures
        match r {
            Err(e) => format == ImageFormat::Tar && tar_size is None && e@ == bad_fault(
                "this isn't a tar archive"@,
            ),
            Ok(size) => !(format == ImageFormat::Tar && tar_size is None) && size == (if tar_size is Some {
                tar_size
            } else {
                whole
            }),
        },
{
    if format == ImageFormat::Tar && tar_size.is_none() {
        return Err(bad("this isn't a tar archive"));
    }
    if tar_size.is_some() {
        Ok(tar_size)
    } else {
        Ok(whole)
    }
}

/// The header of an .lzma file that is opened; `head` is its first 14 bytes.
pub fn lzma_header(head: &[u8]) -> (r: Result<lzma::Header, Error>)
    ensures
        match r {
            Ok(h) => lzma::header_of(head@) == Some(h),
            Err(e) => lzma::header_of(head@) is None && e@ == bad_fault("the .lzma header is damaged"@),
        },
{
    match lzma::header(head) {
        Some(h) => Ok(h),
        None => Err(bad("the .lzma header is damaged")),
    }
}

} // verus!
