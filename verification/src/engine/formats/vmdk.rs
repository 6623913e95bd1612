//! VMDK (VMware), in its single-file variants: monolithicSparse (a sparse extent with a grain
//! directory and grain tables) and streamOptimized (the same with deflated grains behind
//! markers, the directory at the end). Descriptor-only disks (flat, split, ESXi VMFS
//! extents), snapshots (delta disks) and ESXi's COWD/SEsparse formats are not supported; the
//! errors say which file to use or how to convert.

use vstd::prelude::*;
use vstd::string::*;
use crate::engine::formats::codec::{decoded, Codec};
use crate::engine::formats::source::{
    bad, bytes_at, has_bytes, holds, law_fields_are_numbers, le16, le16_at, le32, le32_at, le64, le64_at, le_value,
    plain, sector_bytes, sectors, size_text, size_text_of, unsupported, Layers, Loaded, Source, Stop,
};
use crate::engine::formats::vdisk::{
    block_of, given, law_disk_holds, law_entries_are_at_their_places, leads, least, lemma_in_block, piece_bytes, runs,
    Layout, Packed, Piece, Run, Table, VDisk,
};
use crate::engine::formats::Detected;
use crate::engine::ImageFormat;
use crate::error::{bad_fault, unsupported_fault, Error, Fault};
use crate::text::{
    alike, chars, decimal, from_utf8_lossy, is_alike, is_text, join, joined, lines, lossy, lower, push_decimal,
    split_at_first, split_lines, split_once, split_words, string, strip_end, strip_start, stripped, trim, trimmed,
    u64_in, views, words,
};

verus! {

/// How a sparse extent starts: "KDMV".
pub const MAGIC: [u8; 4] = [0x4b, 0x44, 0x4d, 0x56];

/// "COWD": an ESXi delta disk.
pub const COWD: [u8; 4] = [0x43, 0x4f, 0x57, 0x44];

/// SEsparse: 0x00000000cafebabe, little-endian.
pub const SESPARSE: [u8; 8] = [0xbe, 0xba, 0xfe, 0xca, 0, 0, 0, 0];

/// "# Disk DescriptorFile".
pub const DESCRIPTOR: [u8; 21] = [
    0x23, 0x20, 0x44, 0x69, 0x73, 0x6b, 0x20, 0x44, 0x65, 0x73, 0x63, 0x72, 0x69, 0x70, 0x74, 0x6f, 0x72, 0x46, 0x69,
    0x6c, 0x65,
];

/// A byte order mark.
pub const BOM: [u8; 3] = [0xef, 0xbb, 0xbf];

pub const GD_AT_END: u64 = u64::MAX;

pub const FLAG_ZERO_GRAIN: u32 = 4;

pub const FLAG_MARKERS: u32 = 0x2_0000;

#[derive(Clone, Copy, Debug, PartialEq, Eq, Structural)]
pub struct Header {
    pub version: u32,
    pub flags: u32,
    pub capacity: u64,
    pub grain: u64,
    pub desc_offset: u64,
    pub desc_size: u64,
    pub gtes_per_gt: u32,
    pub gd_offset: u64,
    pub compress: u16,
}

/// The header in `b`, if it is one.
pub open spec fn header_in(b: Seq<u8>) -> Option<Header> {
    if b.len() < 79 || !holds(b, 0, MAGIC@) {
        None
    } else {
        Some(
            Header {
                version: le32_at(b, 4),
                flags: le32_at(b, 8),
                capacity: le64_at(b, 12),
                grain: le64_at(b, 20),
                desc_offset: le64_at(b, 28),
                desc_size: le64_at(b, 36),
                gtes_per_gt: le32_at(b, 44),
                gd_offset: le64_at(b, 56),
                compress: le16_at(b, 77),
            },
        )
    }
}

pub fn parse_header(b: &[u8]) -> (r: Option<Header>)
    ensures
        r == header_in(b@),
{
    if b.len() < 79 || !has_bytes(b, 0, &MAGIC) {
        return None;
    }
    Some(
        Header {
            version: le32(b, 4),
            flags: le32(b, 8),
            capacity: le64(b, 12),
            grain: le64(b, 20),
            desc_offset: le64(b, 28),
            desc_size: le64(b, 36),
            gtes_per_gt: le32(b, 44),
            gd_offset: le64(b, 56),
            compress: le16(b, 77),
        },
    )
}

// The descriptor.

/// The value of the first of the lines from `i` on that reads `key = "value"`.
pub open spec fn value_from(all: Seq<Seq<char>>, key: Seq<char>, i: int) -> Option<Seq<char>>
    decreases all.len() - i,
{
    if i < 0 || i >= all.len() {
        None
    } else {
        match split_once(all[i], '=') {
            Some((k, v)) => if alike(trim(k), key) {
                Some(strip_end(strip_start(trim(v), '"'), '"'))
            } else {
                value_from(all, key, i + 1)
            },
            None => value_from(all, key, i + 1),
        }
    }
}

/// A `key = "value"` line of a descriptor.
pub open spec fn value_of(text: Seq<char>, key: Seq<char>) -> Option<Seq<char>> {
    value_from(lines(text), key, 0)
}

pub fn value(descriptor: &[char], key: &str) -> (r: Option<Vec<char>>)
    ensures
        match r {
            Some(v) => value_of(descriptor@, key@) == Some(v@),
            None => value_of(descriptor@, key@) is None,
        },
{
    let all: Vec<Vec<char>> = split_lines(descriptor);
    let ghost list = lines(descriptor@);
    let mut i: usize = 0;
    while i < all.len()
        invariant
            i <= all@.len(),
            views(all@) == list,
            list == lines(descriptor@),
            value_of(descriptor@, key@) == value_from(list, key@, i as int),
        decreases all@.len() - i,
    {
        assert(list[i as int] == all@[i as int]@);
        if let Some((k, v)) = split_at_first(&all[i], '=') {
            let k: Vec<char> = trimmed(&k);
            if is_alike(&k, key) {
                let v: Vec<char> = trimmed(&v);
                return Some(stripped(&v, '"'));
            }
        }
        i = i + 1;
    }
    None
}

/// An extent line of a descriptor: the extent's type and its file's name.
pub ghost struct ExtentLine {
    pub kind: Seq<char>,
    pub name: Seq<char>,
}

/// `RW 16777216 SPARSE "disk-flat.vmdk"`: a type and a file name.
pub open spec fn extent_line(line: Seq<char>) -> Option<ExtentLine> {
    let t = trim(line);
    let w = words(t);
    if w.len() >= 3 && (w[0] == "RW"@ || w[0] == "RDONLY"@ || w[0] == "NOACCESS"@) && u64_in(w[1]) is Some {
        Some(
            ExtentLine {
                kind: w[2],
                name: match split_once(t, '"') {
                    Some((_, rest)) => match split_once(rest, '"') {
                        Some((n, _)) => n,
                        None => Seq::empty(),
                    },
                    None => Seq::empty(),
                },
            },
        )
    } else {
        None
    }
}

/// The extents that the first `n` lines list.
pub open spec fn extents_upto(all: Seq<Seq<char>>, n: nat) -> Seq<ExtentLine>
    decreases n,
{
    if n == 0 {
        Seq::empty()
    } else {
        match extent_line(all[n - 1]) {
            Some(e) => extents_upto(all, (n - 1) as nat).push(e),
            None => extents_upto(all, (n - 1) as nat),
        }
    }
}

pub open spec fn extents_of(text: Seq<char>) -> Seq<ExtentLine> {
    extents_upto(lines(text), lines(text).len())
}

/// An extent: its type and its file's name.
pub struct Listed {
    pub kind: Vec<char>,
    pub name: String,
}

pub open spec fn listed(v: Seq<Listed>) -> Seq<ExtentLine> {
    v.map_values(|l: Listed| ExtentLine { kind: l.kind@, name: l.name@ })
}

fn extent_in(line: &[char]) -> (r: Option<Listed>)
    ensures
        match r {
            Some(l) => extent_line(line@) == Some(ExtentLine { kind: l.kind@, name: l.name@ }),
            None => extent_line(line@) is None,
        },
{
    let t: Vec<char> = trimmed(line);
    let w: Vec<Vec<char>> = split_words(&t);
    let ghost ws = words(t@);
    assert(views(w@) == ws);
    if w.len() < 3 {
        return None;
    }
    assert(ws[0] == w@[0]@ && ws[1] == w@[1]@ && ws[2] == w@[2]@);
    let known: bool = is_text(&w[0], "RW") || is_text(&w[0], "RDONLY") || is_text(&w[0], "NOACCESS");
    if !known || crate::text::parse_u64(&w[1]).is_none() {
        return None;
    }
    let kind: Vec<char> = crate::text::part(&w[2], 0, w[2].len());
    assert(kind@ == w@[2]@);
    let name: String = match split_at_first(&t, '"') {
        Some((_, rest)) => match split_at_first(&rest, '"') {
            Some((n, _)) => string(&n),
            None => String::new(),
        },
        None => String::new(),
    };
    Some(Listed { kind, name })
}

/// Extent lines: `RW 16777216 SPARSE "disk-flat.vmdk"`.
pub fn extents(descriptor: &[char]) -> (v: Vec<Listed>)
    ensures
        listed(v@) == extents_of(descriptor@),
{
    let all: Vec<Vec<char>> = split_lines(descriptor);
    let ghost list = lines(descriptor@);
    let mut v: Vec<Listed> = Vec::new();
    let mut i: usize = 0;
    proof {
        assert(listed(v@) == Seq::<ExtentLine>::empty());
    }
    while i < all.len()
        invariant
            i <= all@.len(),
            views(all@) == list,
            listed(v@) == extents_upto(list, i as nat),
        decreases all@.len() - i,
    {
        assert(list[i as int] == all@[i as int]@);
        let ghost before = v@;
        if let Some(l) = extent_in(&all[i]) {
            v.push(l);
            proof {
                assert(listed(v@) == listed(before).push(ExtentLine { kind: l.kind@, name: l.name@ }));
            }
        }
        i = i + 1;
    }
    assert(list.len() == all@.len());
    v
}

pub open spec fn names_of(list: Seq<ExtentLine>) -> Seq<Seq<char>> {
    list.map_values(|e: ExtentLine| e.name)
}

/// The error for a descriptor whose disk lives in other files.
pub open spec fn descriptor_fault(text: Seq<char>) -> Fault {
    let list = extents_of(text);
    let create_type = match value_of(text, "createType"@) {
        Some(v) => v,
        None => Seq::empty(),
    };
    if list.len() == 1 && (alike(list[0].kind, "FLAT"@) || alike(list[0].kind, "VMFS"@)) {
        unsupported_fault(
            "this .vmdk file is only a descriptor: the disk itself is in \""@ + list[0].name
                + "\", next to it. That file is a plain raw image: choose it instead."@,
        )
    } else {
        unsupported_fault(
            "this .vmdk file is only a descriptor"@ + bracketed(create_type) + ": the disk itself is in other files"@
                + (if list.len() == 0 {
                Seq::empty()
            } else {
                " ("@ + join(names_of(list), ", "@) + ")"@
            })
                + ", which DD-GUI can't read together. Convert it to one file first: `qemu-img convert -O raw disk.vmdk disk.img`."@,
        )
    }
}

/// Some text in round brackets after a space; nothing for no text.
pub open spec fn bracketed(s: Seq<char>) -> Seq<char> {
    if s.len() == 0 {
        Seq::empty()
    } else {
        " ("@ + s + ")"@
    }
}

fn append_chars(s: &mut String, v: &[char])
    ensures
        final(s)@ == old(s)@ + v@,
{
    s.append(string(v).as_str());
}

pub fn descriptor_only(text: &[char]) -> (e: Error)
    ensures
        e@ == descriptor_fault(text@),
{
    let list: Vec<Listed> = extents(text);
    let ghost all = extents_of(text@);
    assert(listed(list@).len() == list@.len());
    let create_type: Vec<char> = match value(text, "createType") {
        Some(v) => v,
        None => Vec::new(),
    };
    if list.len() == 1 {
        assert(all[0] == listed(list@)[0]);
        if is_alike(&list[0].kind, "FLAT") || is_alike(&list[0].kind, "VMFS") {
            let mut s: String = "this .vmdk file is only a descriptor: the disk itself is in \"".to_owned();
            s.append(list[0].name.as_str());
            s.append("\", next to it. That file is a plain raw image: choose it instead.");
            return unsupported(s.as_str());
        }
    }
    let mut s: String = "this .vmdk file is only a descriptor".to_owned();
    let ghost start = s@;
    if create_type.len() > 0 {
        s.append(" (");
        append_chars(&mut s, &create_type);
        s.append(")");
    }
    assert(s@ == start + bracketed(create_type@));
    s.append(": the disk itself is in other files");
    let ghost middle = s@;
    let mut names: Vec<String> = Vec::new();
    let mut i: usize = 0;
    while i < list.len()
        invariant
            i <= list@.len(),
            names@.len() == i,
            forall|k: int| 0 <= k < i ==> (#[trigger] names@[k])@ == list@[k].name@,
        decreases list@.len() - i,
    {
        names.push(list[i].name.as_str().to_owned());
        i = i + 1;
    }
    proof {
        assert(crate::text::texts(names@) == names_of(all)) by {
            assert forall|k: int| 0 <= k < list@.len() implies crate::text::texts(names@)[k] == names_of(all)[k] by {
                assert(names@[k]@ == list@[k].name@);
                assert(all[k] == listed(list@)[k]);
            }
        }
    }
    if list.len() > 0 {
        s.append(" (");
        s.append(joined(&names, ", ").as_str());
        s.append(")");
        assert(s@ == middle + (" ("@ + join(names_of(all), ", "@) + ")"@));
    } else {
        assert(s@ == middle + Seq::<char>::empty());
    }
    s.append(
        ", which DD-GUI can't read together. Convert it to one file first: `qemu-img convert -O raw disk.vmdk disk.img`.",
    );
    unsupported(s.as_str())
}

/// What stands before the first zero byte.
pub open spec fn before_zero(b: Seq<u8>) -> Seq<u8>
    decreases b.len(),
{
    if b.len() == 0 || b[0] == 0 {
        Seq::empty()
    } else {
        seq![b[0]] + before_zero(b.skip(1))
    }
}

fn upto_zero(b: &[u8]) -> (v: Vec<u8>)
    ensures
        v@ == before_zero(b@),
{
    let mut i: usize = 0;
    let mut v: Vec<u8> = Vec::new();
    proof {
        assert(b@.skip(0) == b@);
        assert(v@ + before_zero(b@) == before_zero(b@));
    }
    while i < b.len() && b[i] != 0
        invariant
            i <= b@.len(),
            before_zero(b@) == v@ + before_zero(b@.skip(i as int)),
        decreases b@.len() - i,
    {
        let ghost before = v@;
        v.push(b[i]);
        proof {
            let rest = b@.skip(i as int);
            assert(rest.skip(1) == b@.skip(i + 1));
            assert(before + (seq![rest[0]] + before_zero(rest.skip(1))) == v@ + before_zero(b@.skip(i + 1)));
        }
        i = i + 1;
    }
    proof {
        assert(v@ + Seq::<u8>::empty() == v@);
    }
    v
}

/// The embedded descriptor (empty if there is none).
pub open spec fn descriptor_of(src: Layers, file: Seq<u8>, h: Header) -> Result<Seq<char>, Fault> {
    if h.desc_offset == 0 || h.desc_size == 0 {
        Ok(Seq::empty())
    } else {
        let len = if sector_bytes(h.desc_size) <= 0x10_0000 {
            sector_bytes(h.desc_size) as nat
        } else {
            0x10_0000
        };
        match src.read_upto(file, sector_bytes(h.desc_offset), len) {
            Err(f) => Err(f),
            Ok(text) => Ok(lossy(before_zero(text))),
        }
    }
}

fn read_descriptor(src: &Source, have: &Loaded, h: &Header) -> (r: Result<Vec<char>, Stop>)
    requires
        src@.wf(),
    ensures
        match r {
            Ok(v) => forall|file: Seq<u8>| #[trigger]
                have.shows(src@, file) ==> descriptor_of(src@, file, *h) == Ok::<Seq<char>, Fault>(v@),
            Err(Stop::Failed(e)) => forall|file: Seq<u8>| #[trigger]
                have.shows(src@, file) ==> descriptor_of(src@, file, *h) == Err::<Seq<char>, Fault>(e@),
            Err(Stop::Need { offset, len }) => have.lacks(src@, offset, len),
        },
{
    if h.desc_offset == 0 || h.desc_size == 0 {
        return Ok(Vec::new());
    }
    let all: u64 = sectors(h.desc_size);
    let len: u64 = if all <= 0x10_0000 {
        all
    } else {
        0x10_0000
    };
    match src.read_upto(have, sectors(h.desc_offset), len as usize) {
        Ok(text) => {
            let text: Vec<u8> = upto_zero(&text);
            Ok(chars(from_utf8_lossy(&text).as_str()))
        },
        Err(s) => Err(s),
    }
}

pub open spec fn header_damaged() -> Fault {
    bad_fault("the VMDK header is damaged"@)
}

pub open spec fn no_footer() -> Fault {
    bad_fault("the VMDK is damaged or incomplete (its footer is missing)"@)
}

/// The header that counts: the footer's copy for streamOptimized files, whose header does
/// not know where the directory ends up.
pub open spec fn last_header(src: Layers, file: Seq<u8>, h: Header) -> Result<Header, Fault> {
    if h.gd_offset != GD_AT_END {
        Ok(h)
    } else if src.size < 1536 {
        Err(header_damaged())
    } else {
        // The footer: a marker sector, a copy of the header, the end-of-stream marker.
        match src.read(file, (src.size - 1536) as u64, 1536) {
            Err(f) => Err(f),
            Ok(tail) => match header_in(tail.subrange(512, 1024)) {
                None => Err(no_footer()),
                Some(footer) => if le32_at(tail, 12) != 3 || le32_at(tail, 1036) != 0 {
                    Err(no_footer())
                } else {
                    Ok(footer)
                },
            },
        }
    }
}

/// How many grain tables a disk has.
pub open spec fn tables_of(h: Header) -> int {
    let span = h.gtes_per_gt * h.grain;
    (h.capacity + span - 1) / span
}

/// What is wrong with a header's sizes, if anything.
pub open spec fn sizes_fault(h: Header) -> Option<Fault> {
    if h.version > 3 {
        Some(
            unsupported_fault(
                "this VMDK has version "@ + decimal(h.version as nat) + ", which DD-GUI doesn't know"@,
            ),
        )
    } else if h.grain == 0 || h.grain > 0x2_0000 || h.gtes_per_gt == 0 || h.gtes_per_gt > 512 {
        Some(header_damaged())
    } else if h.capacity > 0x1000_0000_0000 || tables_of(h) > 0x200_0000 {
        Some(
            bad_fault(
                "the VMDK header is damaged (a disk of "@ + size_text_of(sector_bytes(h.capacity) as nat) + ")"@,
            ),
        )
    } else {
        None
    }
}

/// Why a disk with this descriptor is not whole, if so.
pub open spec fn partial_fault(descriptor: Seq<char>) -> Option<Fault> {
    let create_type = match value_of(descriptor, "createType"@) {
        Some(v) => v,
        None => Seq::empty(),
    };
    let parent = value_of(descriptor, "parentCID"@);
    if descriptor.len() == 0 {
        Some(
            unsupported_fault(
                "this file is one part of a split VMDK (the disk is spread over several files, with a small .vmdk descriptor that lists them), which DD-GUI doesn't support. Convert the whole disk to one file first: `qemu-img convert -O vmdk -o subformat=streamOptimized disk.vmdk whole.vmdk` (using the descriptor)."@,
            ),
        )
    } else if parent is Some && !alike(parent->0, "ffffffff"@) {
        Some(
            unsupported_fault(
                "this VMDK is a snapshot: it only holds the changes made on top of another disk"@ + (match value_of(
                    descriptor,
                    "parentFileNameHint"@,
                ) {
                    Some(p) => " ("@ + p + ")"@,
                    None => Seq::empty(),
                })
                    + ", which DD-GUI doesn't support. Consolidate the snapshots in VMware first, or convert it: `qemu-img convert -O raw disk.vmdk disk.img` (next to its parent)."@,
            ),
        )
    } else if !(lower(create_type) == "monolithicsparse"@ || lower(create_type) == "streamoptimized"@ || create_type.len()
        == 0) || extents_of(descriptor).len() > 1 {
        Some(
            unsupported_fault(
                "this VMDK ("@ + (if create_type.len() == 0 {
                    "several extents"@
                } else {
                    create_type
                })
                    + ") spreads the disk over several files, which DD-GUI doesn't support. Convert it to one file first: `qemu-img convert -O raw disk.vmdk disk.img`."@,
            ),
        )
    } else {
        None
    }
}

/// The sparse extent's header, after checking that the file is a whole disk on its own.
#[verifier::opaque]
pub open spec fn sparse_of(src: Layers, file: Seq<u8>) -> Result<Header, Fault> {
    match src.read_upto(file, 0, 512) {
        Err(f) => Err(f),
        Ok(b) => match header_in(b) {
            None => Err(header_damaged()),
            Some(h) => match descriptor_of(src, file, h) {
                Err(f) => Err(f),
                Ok(descriptor) => if h.capacity == 0 && h.desc_offset != 0 {
                    Err(descriptor_fault(descriptor))
                } else {
                    match last_header(src, file, h) {
                        Err(f) => Err(f),
                        Ok(h) => match sizes_fault(h) {
                            Some(f) => Err(f),
                            None => match partial_fault(descriptor) {
                                Some(f) => Err(f),
                                None => Ok(h),
                            },
                        },
                    }
                },
            },
        },
    }
}

fn final_header(src: &Source, have: &Loaded, h: Header) -> (r: Result<Header, Stop>)
    requires
        src@.wf(),
    ensures
        match r {
            Ok(l) => forall|file: Seq<u8>| #[trigger]
                have.shows(src@, file) ==> last_header(src@, file, h) == Ok::<Header, Fault>(l),
            Err(Stop::Failed(e)) => forall|file: Seq<u8>| #[trigger]
                have.shows(src@, file) ==> last_header(src@, file, h) == Err::<Header, Fault>(e@),
            Err(Stop::Need { offset, len }) => have.lacks(src@, offset, len),
        },
{
    if h.gd_offset != GD_AT_END {
        return Ok(h);
    }
    if src.size < 1536 {
        return Err(Stop::Failed(bad("the VMDK header is damaged")));
    }
    let tail: Vec<u8> = match src.read_vec(have, src.size - 1536, 1536) {
        Ok(b) => b,
        Err(s) => {
            return Err(s);
        },
    };
    let copy: Vec<u8> = bytes_at(&tail, 512, 512);
    match parse_header(&copy) {
        None => Err(Stop::Failed(bad("the VMDK is damaged or incomplete (its footer is missing)"))),
        Some(footer) => {
            if le32(&tail, 12) != 3 || le32(&tail, 1036) != 0 {
                return Err(Stop::Failed(bad("the VMDK is damaged or incomplete (its footer is missing)")));
            }
            Ok(footer)
        },
    }
}

/// Are these sizes that the checks let through?
pub open spec fn sound(h: Header) -> bool {
    &&& 0 < h.grain <= 0x2_0000
    &&& 0 < h.gtes_per_gt <= 512
    &&& h.capacity <= 0x1000_0000_0000
}

fn check_sizes(h: &Header) -> (r: Option<Error>)
    ensures
        match r {
            Some(e) => sizes_fault(*h) == Some(e@),
            None => sizes_fault(*h) is None && sound(*h),
        },
{
    if h.version > 3 {
        let mut s: String = "this VMDK has version ".to_owned();
        push_decimal(&mut s, h.version as u64);
        s.append(", which DD-GUI doesn't know");
        return Some(unsupported(s.as_str()));
    }
    if h.grain == 0 || h.grain > 0x2_0000 || h.gtes_per_gt == 0 || h.gtes_per_gt > 512 {
        return Some(bad("the VMDK header is damaged"));
    }
    let fits: bool = if h.capacity > 0x1000_0000_0000 {
        false
    } else {
        proof {
            assert(1 <= h.gtes_per_gt * h.grain <= 512 * 0x2_0000) by (nonlinear_arith)
                requires
                    1 <= h.gtes_per_gt <= 512,
                    1 <= h.grain <= 0x2_0000,
            ;
        }
        let span: u64 = h.gtes_per_gt as u64 * h.grain;
        (h.capacity + span - 1) / span <= 0x200_0000
    };
    if !fits {
        let mut s: String = "the VMDK header is damaged (a disk of ".to_owned();
        s.append(size_text(sectors(h.capacity)).as_str());
        s.append(")");
        return Some(bad(s.as_str()));
    }
    None
}

fn check_whole(descriptor: &[char]) -> (r: Option<Error>)
    ensures
        match r {
            Some(e) => partial_fault(descriptor@) == Some(e@),
            None => partial_fault(descriptor@) is None,
        },
{
    if descriptor.len() == 0 {
        return Some(
            unsupported(
                "this file is one part of a split VMDK (the disk is spread over several files, with a small .vmdk descriptor that lists them), which DD-GUI doesn't support. Convert the whole disk to one file first: `qemu-img convert -O vmdk -o subformat=streamOptimized disk.vmdk whole.vmdk` (using the descriptor).",
            ),
        );
    }
    let create_type: Vec<char> = match value(descriptor, "createType") {
        Some(v) => v,
        None => Vec::new(),
    };
    if let Some(parent) = value(descriptor, "parentCID") {
        if !is_alike(&parent, "ffffffff") {
            let mut s: String = "this VMDK is a snapshot: it only holds the changes made on top of another disk".to_owned();
            let ghost start = s@;
            if let Some(p) = value(descriptor, "parentFileNameHint") {
                s.append(" (");
                append_chars(&mut s, &p);
                s.append(")");
                assert(s@ == start + (" ("@ + p@ + ")"@));
            } else {
                assert(s@ == start + Seq::<char>::empty());
            }
            s.append(
                ", which DD-GUI doesn't support. Consolidate the snapshots in VMware first, or convert it: `qemu-img convert -O raw disk.vmdk disk.img` (next to its parent).",
            );
            return Some(unsupported(s.as_str()));
        }
    }
    let list: Vec<Listed> = extents(descriptor);
    assert(listed(list@).len() == list@.len());
    let low: Vec<char> = crate::text::lowered(&create_type);
    let single: bool = is_text(&low, "monolithicsparse") || is_text(&low, "streamoptimized") || create_type.len() == 0;
    if !single || list.len() > 1 {
        let mut s: String = "this VMDK (".to_owned();
        if create_type.len() == 0 {
            s.append("several extents");
        } else {
            append_chars(&mut s, &create_type);
        }
        s.append(
            ") spreads the disk over several files, which DD-GUI doesn't support. Convert it to one file first: `qemu-img convert -O raw disk.vmdk disk.img`.",
        );
        return Some(unsupported(s.as_str()));
    }
    None
}

/// The sparse extent's header, after checking that the file is a whole disk on its own.
pub fn sparse(src: &Source, have: &Loaded) -> (r: Result<Header, Stop>)
    requires
        src@.wf(),
    ensures
        match r {
            Ok(h) => sound(h) && forall|file: Seq<u8>| #[trigger]
                have.shows(src@, file) ==> sparse_of(src@, file) == Ok::<Header, Fault>(h),
            Err(Stop::Failed(e)) => forall|file: Seq<u8>| #[trigger]
                have.shows(src@, file) ==> sparse_of(src@, file) == Err::<Header, Fault>(e@),
            Err(Stop::Need { offset, len }) => have.lacks(src@, offset, len),
        },
{
    reveal(sparse_of);
    let b: Vec<u8> = match src.read_upto(have, 0, 512) {
        Ok(b) => b,
        Err(s) => {
            return Err(s);
        },
    };
    let h: Header = match parse_header(&b) {
        Some(h) => h,
        None => {
            return Err(Stop::Failed(bad("the VMDK header is damaged")));
        },
    };
    let descriptor: Vec<char> = match read_descriptor(src, have, &h) {
        Ok(d) => d,
        Err(s) => {
            return Err(s);
        },
    };
    if h.capacity == 0 && h.desc_offset != 0 {
        return Err(Stop::Failed(descriptor_only(&descriptor)));
    }
    let h: Header = match final_header(src, have, h) {
        Ok(h) => h,
        Err(s) => {
            return Err(s);
        },
    };
    if let Some(e) = check_sizes(&h) {
        return Err(Stop::Failed(e));
    }
    if let Some(e) = check_whole(&descriptor) {
        return Err(Stop::Failed(e));
    }
    Ok(h)
}

/// Does a file that starts with `head` hold a descriptor as text?
pub open spec fn is_descriptor(head: Seq<u8>) -> bool {
    holds(head, 0, DESCRIPTOR@) || (holds(head, 0, BOM@) && holds(head, 3, DESCRIPTOR@))
}

/// Is this a VMDK, by the start of the file? With the disk's size, if the file holds the
/// whole disk.
pub fn detect(src: &Source, have: &Loaded, head: &[u8]) -> (r: Result<Option<Detected>, Stop>)
    requires
        src@.wf(),
    ensures
        match r {
            Ok(None) => !(holds(head@, 0, MAGIC@) || holds(head@, 0, COWD@) || holds(head@, 0, SESPARSE@)
                || is_descriptor(head@)),
            Ok(Some(d)) => {
                &&& d.format == ImageFormat::Vmdk
                &&& if holds(head@, 0, MAGIC@) {
                    forall|file: Seq<u8>| #[trigger]
                        have.shows(src@, file) ==> d.raw_size == (match sparse_of(src@, file) {
                            Ok(h) => Some((h.capacity * 512) as u64),
                            Err(_) => None,
                        })
                } else {
                    d.raw_size is None && (holds(head@, 0, COWD@) || holds(head@, 0, SESPARSE@) || is_descriptor(
                        head@,
                    ))
                }
            },
            Err(Stop::Failed(_)) => false,
            Err(Stop::Need { offset, len }) => have.lacks(src@, offset, len),
        },
{
    if has_bytes(head, 0, &MAGIC) {
        let raw_size: Option<u64> = match sparse(src, have) {
            Ok(h) => Some(h.capacity * 512),
            Err(Stop::Failed(_)) => None,
            Err(Stop::Need { offset, len }) => {
                return Err(Stop::Need { offset, len });
            },
        };
        return Ok(Some(Detected { format: ImageFormat::Vmdk, raw_size }));
    }
    let text: bool = has_bytes(head, 0, &DESCRIPTOR) || (has_bytes(head, 0, &BOM) && has_bytes(head, 3, &DESCRIPTOR));
    if has_bytes(head, 0, &COWD) || has_bytes(head, 0, &SESPARSE) || text {
        Ok(Some(Detected { format: ImageFormat::Vmdk, raw_size: None }))
    } else {
        Ok(None)
    }
}

// The grains.

/// The grains of the disk, in order.
#[derive(Clone, Copy, Debug, PartialEq, Eq, Structural)]
pub struct Grains {
    /// The grain directory: sector offsets of grain tables.
    pub gd: Table,
    pub gtes_per_gt: u64,
    /// Bytes per grain.
    pub grain: u64,
    pub next: u64,
    pub grains: u64,
    pub compressed: bool,
    pub markers: bool,
    pub zero_grain: bool,
}

impl Grains {
    /// A compressed grain at `offset`: with markers, 12 bytes (its sector, the compressed
    /// length) come first. Without, the zlib stream starts right away; deflate can grow data
    /// a little, so a bit more than a grain is read.
    pub open spec fn packed_at(self, src: Layers, file: Seq<u8>, offset: u64) -> Result<Piece, Fault> {
        let piece = |data: int, len: int|
            Piece {
                len: self.grain,
                run: Run::Packed(
                    Packed {
                        offset: data as u64,
                        len: len as u32,
                        codec: Codec::Zlib,
                        size: self.grain as u32,
                        // The last grain of a disk may hold less than a whole grain.
                        short_ok: true,
                    },
                ),
            };
        if self.markers {
            match src.read(file, offset, 12) {
                Err(f) => Err(f),
                Ok(marker) => {
                    let len = le32_at(marker, 8);
                    if len == 0 || len > 2 * self.grain {
                        Err(
                            bad_fault(
                                "the VMDK is damaged (the grain at byte "@ + decimal(offset as nat) + " claims "@
                                    + size_text_of(len as nat) + ")"@,
                            ),
                        )
                    } else {
                        Ok(piece(offset + 12, len as int))
                    }
                },
            }
        } else {
            Ok(piece(offset as int, self.grain + self.grain / 512 + 1024))
        }
    }

    /// What a grain table's entry says.
    pub open spec fn entry_piece(self, src: Layers, file: Seq<u8>, entry: u32) -> Result<Piece, Fault> {
        if entry == 0 || (entry == 1 && self.zero_grain) {
            Ok(Piece { len: self.grain, run: Run::Zeros })
        } else if !self.compressed {
            Ok(Piece { len: self.grain, run: Run::Stored((entry * 512) as u64) })
        } else {
            self.packed_at(src, file, (entry * 512) as u64)
        }
    }

    /// The entry for the next grain in the table at a sector.
    pub open spec fn gte(self, src: Layers, file: Seq<u8>, gt_sector: u32) -> Result<u32, Fault> {
        match src.read(file, (gt_sector * 512) as u64, (self.gtes_per_gt * 4) as nat) {
            Err(f) => Err(f),
            Ok(gt) => Ok(le32_at(gt, (self.next % self.gtes_per_gt) * 4)),
        }
    }

    fn read_gte(&self, src: &Source, have: &Loaded, gt_sector: u32) -> (r: Result<u32, Stop>)
        requires
            self.wf(),
            src@.wf(),
        ensures
            match r {
                Ok(e) => forall|file: Seq<u8>| #[trigger]
                    have.shows(src@, file) ==> self.gte(src@, file, gt_sector) == Ok::<u32, Fault>(e),
                Err(Stop::Failed(e)) => forall|file: Seq<u8>| #[trigger]
                    have.shows(src@, file) ==> self.gte(src@, file, gt_sector) == Err::<u32, Fault>(e@),
                Err(Stop::Need { offset, len }) => have.lacks(src@, offset, len),
            },
    {
        let at: u64 = gt_sector as u64 * 512;
        let len: usize = self.gtes_per_gt as usize * 4;
        match src.read_vec(have, at, len) {
            Ok(gt) => Ok(le32(&gt, (self.next % self.gtes_per_gt) as usize * 4)),
            Err(s) => Err(s),
        }
    }

    fn packed_piece(&self, src: &Source, have: &Loaded, offset: u64) -> (r: Result<Piece, Stop>)
        requires
            self.wf(),
            src@.wf(),
            offset <= 0x200_0000_0000,
        ensures
            match r {
                Ok(p) => forall|file: Seq<u8>| #[trigger]
                    have.shows(src@, file) ==> self.packed_at(src@, file, offset) == Ok::<Piece, Fault>(p),
                Err(Stop::Failed(e)) => forall|file: Seq<u8>| #[trigger]
                    have.shows(src@, file) ==> self.packed_at(src@, file, offset) == Err::<Piece, Fault>(e@),
                Err(Stop::Need { offset: o, len }) => have.lacks(src@, o, len),
            },
    {
        let mut data: u64 = offset;
        let mut len: u64 = self.grain + self.grain / 512 + 1024;
        if self.markers {
            let marker: Vec<u8> = match src.read_vec(have, offset, 12) {
                Ok(b) => b,
                Err(s) => {
                    return Err(s);
                },
            };
            len = le32(&marker, 8) as u64;
            if len == 0 || len > 2 * self.grain {
                let mut s: String = "the VMDK is damaged (the grain at byte ".to_owned();
                push_decimal(&mut s, offset);
                s.append(" claims ");
                s.append(size_text(len).as_str());
                s.append(")");
                return Err(Stop::Failed(bad(s.as_str())));
            }
            data = offset + 12;
        }
        Ok(
            Piece {
                len: self.grain,
                run: Run::Packed(
                    Packed {
                        offset: data,
                        len: len as u32,
                        codec: Codec::Zlib,
                        size: self.grain as u32,
                        short_ok: true,
                    },
                ),
            },
        )
    }
}

impl Layout for Grains {
    open spec fn wf(self) -> bool {
        &&& self.gd.wf()
        &&& self.gd.entry_size == 4
        &&& 0 < self.gtes_per_gt <= 512
        &&& 512 <= self.grain <= 0x400_0000
        &&& self.grains * self.grain <= 0x40_0000_0000_0000
    }

    open spec fn step(self, src: Layers, file: Seq<u8>) -> Result<Option<(Piece, Self)>, Fault> {
        if self.next >= self.grains {
            Ok(None)
        } else {
            match self.gd.entry(src, file, (self.next / self.gtes_per_gt) as u64) {
                Err(f) => Err(f),
                Ok(e) => {
                    let gt_sector = match e {
                        Some(b) => le32_at(b, 0),
                        None => 0,
                    };
                    if gt_sector == 0 {
                        let in_table = self.gtes_per_gt - self.next % self.gtes_per_gt;
                        let n = if in_table <= self.grains - self.next {
                            in_table
                        } else {
                            self.grains - self.next
                        };
                        Ok(
                            Some(
                                (
                                    Piece { len: (n * self.grain) as u64, run: Run::Zeros },
                                    Grains { next: (self.next + n) as u64, ..self },
                                ),
                            ),
                        )
                    } else {
                        match self.gte(src, file, gt_sector) {
                            Err(f) => Err(f),
                            Ok(entry) => match self.entry_piece(src, file, entry) {
                                Err(f) => Err(f),
                                Ok(p) => Ok(Some((p, Grains { next: (self.next + 1) as u64, ..self }))),
                            },
                        }
                    }
                },
            }
        }
    }

    fn next(&mut self, src: &Source, have: &Loaded) -> (r: Result<Option<Piece>, Stop>) {
        if self.next >= self.grains {
            return Ok(None);
        }
        let table: u64 = self.next / self.gtes_per_gt;
        let index: u64 = self.next % self.gtes_per_gt;
        let gt_sector: u32 = match self.gd.get(src, have, table) {
            Ok(Some(e)) => le32(&e, 0),
            Ok(None) => 0,
            Err(s) => {
                return Err(s);
            },
        };
        if gt_sector == 0 {
            let in_table: u64 = self.gtes_per_gt - index;
            let n: u64 = if in_table <= self.grains - self.next {
                in_table
            } else {
                self.grains - self.next
            };
            proof {
                assert(n * self.grain <= self.grains * self.grain) by (nonlinear_arith)
                    requires
                        0 <= n <= self.grains,
                        self.grain >= 0,
                ;
            }
            self.next = self.next + n;
            return Ok(Some(Piece::zeros(n * self.grain)));
        }
        let entry: u32 = match self.read_gte(src, have, gt_sector) {
            Ok(e) => e,
            Err(s) => {
                return Err(s);
            },
        };
        let piece: Piece = if entry == 0 || (entry == 1 && self.zero_grain) {
            Piece::zeros(self.grain)
        } else if !self.compressed {
            Piece::stored(entry as u64 * 512, self.grain)
        } else {
            match self.packed_piece(src, have, entry as u64 * 512) {
                Ok(p) => p,
                Err(s) => {
                    return Err(s);
                },
            }
        };
        self.next = self.next + 1;
        Ok(Some(piece))
    }
}

// Opening.

/// The map of the disk that a header describes. As QEMU: the algorithm field says whether
/// grains are compressed.
pub open spec fn grains_for(h: Header) -> Result<Grains, Fault> {
    if h.compress > 1 {
        Err(
            unsupported_fault(
                "this VMDK uses a compression DD-GUI doesn't know ("@ + decimal(h.compress as nat) + ")"@,
            ),
        )
    } else {
        Ok(
            Grains {
                gd: Table { offset: sector_bytes(h.gd_offset), entries: tables_of(h) as u64, entry_size: 4 },
                gtes_per_gt: h.gtes_per_gt as u64,
                grain: (h.grain * 512) as u64,
                next: 0,
                grains: ((h.capacity + h.grain - 1) / h.grain as int) as u64,
                compressed: h.compress == 1,
                markers: h.flags & FLAG_MARKERS != 0,
                zero_grain: h.flags & FLAG_ZERO_GRAIN != 0,
            },
        )
    }
}

/// The disk: its size and its map.
pub open spec fn opened(src: Layers, file: Seq<u8>) -> Result<(u64, Grains), Fault> {
    match src.read_upto(file, 0, 512) {
        Err(f) => Err(f),
        Ok(head) => if holds(head, 0, COWD@) || holds(head, 0, SESPARSE@) {
            Err(
                unsupported_fault(
                    "this is an ESXi sparse VMDK (usually a snapshot's delta disk), which DD-GUI doesn't support. Convert it to a whole disk first, e.g. `vmkfstools -i disk.vmdk -d thin whole.vmdk` on the ESXi host, or `qemu-img convert -O raw disk.vmdk disk.img`."@,
                ),
            )
        } else if !holds(head, 0, MAGIC@) {
            // A text descriptor: the data is elsewhere.
            match src.read_upto(file, 0, 0x1_0000) {
                Err(f) => Err(f),
                Ok(text) => Err(descriptor_fault(lossy(text))),
            }
        } else {
            match sparse_of(src, file) {
                Err(f) => Err(f),
                Ok(h) => match grains_for(h) {
                    Err(f) => Err(f),
                    Ok(g) => Ok(((h.capacity * 512) as u64, g)),
                },
            }
        },
    }
}

fn grains(h: &Header) -> (r: Result<Grains, Error>)
    requires
        sound(*h),
    ensures
        crate::error::gives(r, grains_for(*h)),
        r matches Ok(g) ==> g.wf(),
{
    if h.compress > 1 {
        let mut s: String = "this VMDK uses a compression DD-GUI doesn't know (".to_owned();
        push_decimal(&mut s, h.compress as u64);
        s.append(")");
        return Err(unsupported(s.as_str()));
    }
    proof {
        assert(1 <= h.gtes_per_gt * h.grain <= 512 * 0x2_0000) by (nonlinear_arith)
            requires
                1 <= h.gtes_per_gt <= 512,
                1 <= h.grain <= 0x2_0000,
        ;
    }
    let span: u64 = h.gtes_per_gt as u64 * h.grain;
    let tables: u64 = (h.capacity + span - 1) / span;
    let count: u64 = (h.capacity + h.grain - 1) / h.grain;
    let grain: u64 = h.grain * 512;
    proof {
        assert(count * h.grain <= h.capacity + h.grain - 1) by (nonlinear_arith)
            requires
                count == (h.capacity + h.grain - 1) / h.grain as int,
                h.grain > 0,
        ;
        assert(count * grain == (count * h.grain) * 512) by (nonlinear_arith)
            requires
                grain == h.grain * 512,
        ;
    }
    Ok(
        Grains {
            gd: Table::new(sectors(h.gd_offset), tables, 4),
            gtes_per_gt: h.gtes_per_gt as u64,
            grain,
            next: 0,
            grains: count,
            compressed: h.compress == 1,
            markers: h.flags & FLAG_MARKERS != 0,
            zero_grain: h.flags & FLAG_ZERO_GRAIN != 0,
        },
    )
}

/// Opens the disk in a VMDK file of `size` bytes.
#[verifier::spinoff_prover]
#[verifier::rlimit(30)]
pub fn open(size: u64, have: &Loaded) -> (r: Result<VDisk<Grains>, Stop>)
    ensures
        match r {
            Ok(d) => {
                &&& d.wf()
                &&& d.pos == 0
                &&& d.src@ == plain(size)
                &&& forall|file: Seq<u8>| #[trigger]
                    have.shows(plain(size), file) ==> {
                        &&& opened(plain(size), file) is Ok
                        &&& d.size == (opened(plain(size), file)->Ok_0).0
                        &&& d.opens(
                            (opened(plain(size), file)->Ok_0).1,
                            plain(size),
                            file,
                        )
                    }
            },
            Err(Stop::Failed(e)) => forall|file: Seq<u8>| #[trigger]
                have.shows(plain(size), file) ==> opened(plain(size), file) == Err::<(u64, Grains), Fault>(e@),
            Err(Stop::Need { offset, len }) => have.lacks(plain(size), offset, len),
        },
{
    let src: Source = Source::new(size);
    let head: Vec<u8> = match src.read_upto(have, 0, 512) {
        Ok(b) => b,
        Err(s) => {
            return Err(s);
        },
    };
    if has_bytes(&head, 0, &COWD) || has_bytes(&head, 0, &SESPARSE) {
        return Err(
            Stop::Failed(
                unsupported(
                    "this is an ESXi sparse VMDK (usually a snapshot's delta disk), which DD-GUI doesn't support. Convert it to a whole disk first, e.g. `vmkfstools -i disk.vmdk -d thin whole.vmdk` on the ESXi host, or `qemu-img convert -O raw disk.vmdk disk.img`.",
                ),
            ),
        );
    }
    if !has_bytes(&head, 0, &MAGIC) {
        return match src.read_upto(have, 0, 0x1_0000) {
            Ok(text) => {
                let text: Vec<char> = chars(from_utf8_lossy(&text).as_str());
                Err(Stop::Failed(descriptor_only(&text)))
            },
            Err(s) => Err(s),
        };
    }
    let h: Header = match sparse(&src, have) {
        Ok(h) => h,
        Err(s) => {
            return Err(s);
        },
    };
    match grains(&h) {
        Ok(g) => Ok(VDisk::new(src, h.capacity * 512, g)),
        Err(e) => Err(Stop::Failed(e)),
    }
}

// What the disk holds, by the format.

/// The number that is seen in four bytes at `at`.
pub open spec fn number_at(src: Layers, file: Seq<u8>, at: int) -> int {
    le_value(src.bytes(file, at as u64, 4)) as int
}

/// Byte `p` of the disk in a VMDK with that header: of the grain that holds it, which is looked up
/// in the grain table that its own entry of the grain directory points to.
pub open spec fn disk_byte(src: Layers, file: Seq<u8>, h: Header, p: int) -> u8 {
    let grain = h.grain * 512;
    let k = p / grain;
    let per = h.gtes_per_gt as int;
    let within = p % grain;
    let table = number_at(src, file, h.gd_offset * 512 + 4 * (k / per));
    let entry = number_at(src, file, table * 512 + 4 * (k % per));
    if table == 0 || entry == 0 || (entry == 1 && h.flags / 4 % 2 == 1) {
        0
    } else if h.compress == 0 {
        src.seen(file, entry * 512 + within)
    } else {
        let (at, len) = if h.flags / 0x2_0000 % 2 == 1 {
            (entry * 512 + 12, number_at(src, file, entry * 512 + 8))
        } else {
            (entry * 512, grain + grain / 512 + 1024)
        };
        let got = decoded(Codec::Zlib, src.read_upto(file, at as u64, len as nat)->Ok_0, grain as nat)->Ok_0;
        if within < got.len() {
            got[within]
        } else {
            0
        }
    }
}

spec fn stands(m: Grains, g: Grains, pos: int) -> bool {
    m == (Grains { next: m.next, ..g }) && pos == m.next * g.grain
}

proof fn lemma_sizes(h: Header, k: int, pos: int)
    requires
        sound(h),
        0 <= k,
        pos == k * (h.grain * 512),
        pos < h.capacity * 512,
    ensures
        k < (h.capacity + h.grain - 1) / h.grain as int,
        0 <= k / (h.gtes_per_gt as int) < tables_of(h) <= h.capacity,
        (h.capacity + h.grain - 1) / h.grain as int <= h.capacity,
        (h.capacity + h.grain - 1) / h.grain as int * h.grain < h.capacity + h.grain,
{
    let g = h.grain as int;
    let c = h.capacity as int;
    let per = h.gtes_per_gt as int;
    assert(k * g < c) by (nonlinear_arith)
        requires
            k * (g * 512) < c * 512,
    ;
    assert(k < (c + g - 1) / g && (c + g - 1) / g <= c && (c + g - 1) / g * g < c + g) by (nonlinear_arith)
        requires
            k * g < c,
            g > 0,
            k >= 0,
    ;
    let span = per * g;
    let q = k / per;
    assert(q * per <= k) by (nonlinear_arith)
        requires
            q == k / per,
            per > 0,
    ;
    assert(span > 0 && q * span <= k * g) by (nonlinear_arith)
        requires
            q * per <= k,
            span == per * g,
            g > 0,
            per > 0,
    ;
    assert(q + 1 <= (c + span - 1) / span && (c + span - 1) / span <= c) by (nonlinear_arith)
        requires
            q * span < c,
            span > 0,
            q >= 0,
            c > 0,
    ;
}

proof fn lemma_same_table(k: int, n: int, grain: int, per: int, j: int)
    requires
        0 <= k,
        grain > 0,
        per > 0,
        n <= per - k % per,
        0 <= j < n * grain,
    ensures
        (k * grain + j) / grain / per == k / per,
{
    let a = j / grain;
    let b = j % grain;
    assert(j == a * grain + b && 0 <= b < grain && 0 <= a < n) by (nonlinear_arith)
        requires
            a == j / grain,
            b == j % grain,
            0 <= j < n * grain,
            grain > 0,
    ;
    assert(k * grain + j == (k + a) * grain + b) by (nonlinear_arith)
        requires
            j == a * grain + b,
    ;
    lemma_in_block(k + a, grain, b);
    let q = k / per;
    let r = k % per;
    assert(k == q * per + r) by (nonlinear_arith)
        requires
            q == k / per,
            r == k % per,
            per > 0,
    ;
    vstd::arithmetic::div_mod::lemma_fundamental_div_mod_converse(k + a, per, q, r + a);
}

/// Four bytes that are seen are a field of what is read around them.
proof fn lemma_seen_field(src: Layers, file: Seq<u8>, offset: u64, n: nat, at: int)
    requires
        0 <= at,
        at + 4 <= n,
        offset + n <= u64::MAX,
    ensures
        le32_at(src.bytes(file, offset, n), at) == number_at(src, file, offset + at),
{
    let b = src.bytes(file, offset, n);
    law_fields_are_numbers(b, at);
    assert(b.subrange(at, at + 4) =~= src.bytes(file, (offset + at) as u64, 4));
}

#[verifier::spinoff_prover]
#[verifier::rlimit(80)]
proof fn lemma_leads(m: Grains, src: Layers, file: Seq<u8>, h: Header, g: Grains, pos: int)
    requires
        sound(h),
        h.gd_offset * 512 <= u64::MAX,
        grains_for(h) == Ok::<Grains, Fault>(g),
        stands(m, g, pos),
        0 <= pos < h.capacity * 512,
    ensures
        leads(
            m,
            src,
            file,
            (h.capacity * 512) as u64,
            pos,
            |x: Grains, at: int| stands(x, g, at),
            |p: int| disk_byte(src, file, h, p),
        ),
{
    let byte = |p: int| disk_byte(src, file, h, p);
    let size = h.capacity * 512;
    let grain = h.grain * 512;
    let k = m.next as int;
    let per = h.gtes_per_gt as int;
    let flags = h.flags;
    assert((flags & 0x2_0000 != 0) == (flags / 0x2_0000 % 2 == 1) && (flags & 4 != 0) == (flags / 4 % 2 == 1))
        by (bit_vector);
    lemma_sizes(h, k, pos);
    assert(g.grain == grain);
    let i = (m.next / m.gtes_per_gt) as u64;
    law_entries_are_at_their_places(m.gd, src, file, i);
    if let Ok(Some((p, next))) = m.step(src, file) {
        let b = src.bytes(file, (h.gd_offset * 512 + 4 * i) as u64, 4);
        law_fields_are_numbers(b, 0);
        assert(b.subrange(0, 4) =~= b);
        let table = le32_at(b, 0);
        assert(i == k / per);
        assert(m.gd.entry(src, file, i) == Ok::<Option<Seq<u8>>, Fault>(Some(b)));
        assert(table == number_at(src, file, h.gd_offset * 512 + 4 * (k / per)));
        let len = least(p.len as int, size - pos) as nat;
        if table == 0 {
            let in_table = per - k % per;
            let n = if in_table <= m.grains - k {
                in_table
            } else {
                m.grains - k
            };
            assert(0 < n * grain <= m.grains * grain && (k + n) * grain == k * grain + n * grain) by (nonlinear_arith)
                requires
                    0 < n,
                    n + k <= m.grains,
                    k >= 0,
                    grain > 0,
            ;
            assert(m.grains * grain <= u64::MAX) by (nonlinear_arith)
                requires
                    m.grains * h.grain < h.capacity + h.grain,
                    grain == h.grain * 512,
                    h.capacity <= 0x1000_0000_0000,
                    h.grain <= 0x2_0000,
            ;
            assert forall|j: int| 0 <= j < len implies #[trigger] piece_bytes(src, file, pos as u64, p, len)[j] == byte(
                pos + j,
            ) by {
                lemma_same_table(k, n, grain, per, j);
            }
        } else {
            assert(m.gte(src, file, table) is Ok);
            assert(p.len == grain);
            lemma_seen_field(src, file, (table * 512) as u64, (per * 4) as nat, (k % per) * 4);
            let entry = m.gte(src, file, table)->Ok_0;
            assert(entry == number_at(src, file, table * 512 + 4 * (k % per)));
            assert((k + 1) * grain == k * grain + grain) by (nonlinear_arith);
            if p.run is Packed && m.markers {
                lemma_seen_field(src, file, (entry * 512) as u64, 12, 8);
            }
            assert forall|j: int| 0 <= j < len && (p.run matches Run::Packed(packed) ==> block_of(
                src,
                file,
                pos as u64,
                p.len,
                packed,
            ) is Ok) implies #[trigger] piece_bytes(src, file, pos as u64, p, len)[j] == byte(pos + j) by {
                lemma_in_block(k, grain, j);
            }
        }
    }
}

/// The disk in a VMDK, read to its end, is as the format says.
pub proof fn law_disk_is_as_the_format_says(
    disks: Seq<VDisk<Grains>>,
    reads: Seq<Seq<u8>>,
    file: Seq<u8>,
    src: Layers,
    h: Header,
    g: Grains,
)
    requires
        runs(disks, reads, file),
        sound(h),
        h.gd_offset * 512 <= u64::MAX,
        grains_for(h) == Ok::<Grains, Fault>(g),
        disks[0].src@ == src,
        disks[0].size == h.capacity * 512,
        disks[0].opens(g, src, file),
    ensures
        given(reads).len() == h.capacity * 512,
        forall|p: int| 0 <= p < h.capacity * 512 ==> #[trigger] given(reads)[p] == disk_byte(src, file, h, p),
{
    let good = |x: Grains, at: int| stands(x, g, at);
    let byte = |p: int| disk_byte(src, file, h, p);
    assert(0 * g.grain == 0);
    assert(good(g, 0));
    assert forall|m: Grains, pos: int| #[trigger] good(m, pos) && 0 <= pos < disks[0].size implies leads(
        m,
        disks[0].src@,
        file,
        disks[0].size,
        pos,
        good,
        byte,
    ) by {
        lemma_leads(m, src, file, h, g, pos);
    }
    law_disk_holds(disks, reads, file, g, good, byte);
    assert forall|p: int| 0 <= p < h.capacity * 512 implies #[trigger] given(reads)[p] == disk_byte(src, file, h, p) by {
        assert(given(reads)[p] == byte(p));
    }
}

/// Where a sparse extent's header says what: the numbers in it, the low byte first.
pub proof fn law_headers_are_read(b: Seq<u8>)
    requires
        b.len() >= 79,
    ensures
        header_in(b) is Some <==> b[0] == 0x4b && b[1] == 0x44 && b[2] == 0x4d && b[3] == 0x56,
        header_in(b) matches Some(h) ==> {
            &&& h.version == le_value(b.subrange(4, 8))
            &&& h.flags == le_value(b.subrange(8, 12))
            &&& h.capacity == le_value(b.subrange(12, 20))
            &&& h.grain == le_value(b.subrange(20, 28))
            &&& h.desc_offset == le_value(b.subrange(28, 36))
            &&& h.desc_size == le_value(b.subrange(36, 44))
            &&& h.gtes_per_gt == le_value(b.subrange(44, 48))
            &&& h.gd_offset == le_value(b.subrange(56, 64))
            &&& h.compress == le_value(b.subrange(77, 79))
        },
{
    let start = b.subrange(0, 4);
    assert(start[0] == b[0] && start[1] == b[1] && start[2] == b[2] && start[3] == b[3]);
    assert(holds(b, 0, MAGIC@) <==> start =~= MAGIC@);
    law_fields_are_numbers(b, 4);
    law_fields_are_numbers(b, 8);
    law_fields_are_numbers(b, 12);
    law_fields_are_numbers(b, 20);
    law_fields_are_numbers(b, 28);
    law_fields_are_numbers(b, 36);
    law_fields_are_numbers(b, 44);
    law_fields_are_numbers(b, 56);
    law_fields_are_numbers(b, 77);
}

} // verus!
