//! VHDX (Hyper-V): two headers (the one with the higher sequence number wins), a region
//! table that locates the block allocation table (BAT) and the metadata (block size, disk
//! size, sector size), and payload blocks of 1 to 256 MiB. Fixed and dynamic disks read the
//! same way; differencing disks are not supported.
//!
//! A file that was not closed cleanly has a log of metadata changes that have to be applied
//! before reading it (MS-VHDX, "Log Replay"). They are applied in memory, on top of the
//! file, which stays untouched.

use vstd::prelude::*;
use vstd::string::*;
use crate::engine::formats::source::{
    bad, bytes_at, changes, crc32c, crc32c_of, has_bytes, holds, is_power_of_two, law_crc32c_in_parts,
    law_fields_are_numbers, le16, le16_at, le32, le32_at, le64, le64_at, le_value, power_of_two, push_bytes, size_text,
    size_text_of, unsupported, plain, Change, Layers, Loaded, Patch, Source, Stop,
};
use crate::engine::formats::vdisk::{
    given, law_disk_holds, law_entries_are_at_their_places, leads, least, lemma_in_block, piece_bytes, runs, Layout,
    Piece, Run, Table, VDisk,
};
use crate::engine::formats::Detected;
use crate::engine::ImageFormat;
use crate::error::{bad_fault, unsupported_fault, Error, Fault};
use crate::text::{decimal, push_decimal};

verus! {

pub const MIB: u64 = 0x10_0000;

/// VHDX files hold at most 64 TiB of disk, and their metadata: offsets past this are
/// damage.
pub const MAX_FILE: u64 = 0x8000_0000_0000;

/// Log entries are made of sectors of this size.
pub const SECTOR: u64 = 4096;

// GUIDs as VHDX stores them: the first three fields little-endian.

pub const BAT_REGION: [u8; 16] = [
    0x66, 0x77, 0xc2, 0x2d, 0x23, 0xf6, 0x00, 0x42, 0x9d, 0x64, 0x11, 0x5e, 0x9b, 0xfd, 0x4a, 0x08,
];

pub const METADATA_REGION: [u8; 16] = [
    0x06, 0xa2, 0x7c, 0x8b, 0x90, 0x47, 0x9a, 0x4b, 0xb8, 0xfe, 0x57, 0x5f, 0x05, 0x0f, 0x88, 0x6e,
];

pub const FILE_PARAMETERS: [u8; 16] = [
    0x37, 0x67, 0xa1, 0xca, 0x36, 0xfa, 0x43, 0x4d, 0xb3, 0xb6, 0x33, 0xf0, 0xaa, 0x44, 0xe7, 0x6b,
];

pub const VIRTUAL_DISK_SIZE: [u8; 16] = [
    0x24, 0x42, 0xa5, 0x2f, 0x1b, 0xcd, 0x76, 0x48, 0xb2, 0x11, 0x5d, 0xbe, 0xd8, 0x3b, 0xf4, 0xb8,
];

pub const PAGE_83_DATA: [u8; 16] = [
    0xab, 0x12, 0xca, 0xbe, 0xe6, 0xb2, 0x23, 0x45, 0x93, 0xef, 0xc3, 0x09, 0xe0, 0x00, 0xc7, 0x46,
];

pub const LOGICAL_SECTOR_SIZE: [u8; 16] = [
    0x1d, 0xbf, 0x41, 0x81, 0x6f, 0xa9, 0x09, 0x47, 0xba, 0x47, 0xf2, 0x33, 0xa8, 0xfa, 0xab, 0x5f,
];

pub const PHYSICAL_SECTOR_SIZE: [u8; 16] = [
    0xc7, 0x48, 0xa3, 0xcd, 0x5d, 0x44, 0x71, 0x44, 0x9c, 0xc9, 0xe9, 0x88, 0x52, 0x51, 0xc5, 0x56,
];

pub const PARENT_LOCATOR: [u8; 16] = [
    0x2d, 0x5f, 0xd3, 0xa8, 0x0b, 0xb3, 0x4d, 0x45, 0xab, 0xf7, 0xd3, 0xd8, 0x48, 0x34, 0xab, 0x0c,
];

/// How a VHDX file starts: "vhdxfile".
pub const SIGNATURE: [u8; 8] = [0x76, 0x68, 0x64, 0x78, 0x66, 0x69, 0x6c, 0x65];

/// "head": a header.
pub const HEAD: [u8; 4] = [0x68, 0x65, 0x61, 0x64];

/// "regi": a region table.
pub const REGI: [u8; 4] = [0x72, 0x65, 0x67, 0x69];

/// "metadata": a metadata table.
pub const METADATA: [u8; 8] = [0x6d, 0x65, 0x74, 0x61, 0x64, 0x61, 0x74, 0x61];

/// "loge": a log entry.
pub const LOGE: [u8; 4] = [0x6c, 0x6f, 0x67, 0x65];

/// "zero": a run of zeros, in a log entry.
pub const ZERO: [u8; 4] = [0x7a, 0x65, 0x72, 0x6f];

/// "desc": a sector of data, in a log entry.
pub const DESC: [u8; 4] = [0x64, 0x65, 0x73, 0x63];

/// "data": the sector itself.
pub const DATA: [u8; 4] = [0x64, 0x61, 0x74, 0x61];

/// The active header.
pub struct Header {
    pub log_guid: Vec<u8>,
    pub log_version: u16,
    pub log_length: u64,
    pub log_offset: u64,
}

/// What a `Header` says.
#[verifier::ext_equal]
pub ghost struct Heading {
    pub log_guid: Seq<u8>,
    pub log_version: u16,
    pub log_length: u64,
    pub log_offset: u64,
}

impl View for Header {
    type V = Heading;

    open spec fn view(&self) -> Heading {
        Heading {
            log_guid: self.log_guid@,
            log_version: self.log_version,
            log_length: self.log_length,
            log_offset: self.log_offset,
        }
    }
}

/// What the metadata says about the disk.
#[derive(Clone, Copy, Debug, PartialEq, Eq, Structural)]
pub struct Disk {
    pub size: u64,
    pub block_size: u64,
    pub logical_sector: u64,
    pub bat_offset: u64,
    pub bat_entries: u64,
}

/// `b` with the four bytes at `at` taken as zero.
pub open spec fn zeroed(b: Seq<u8>, at: int) -> Seq<u8> {
    b.take(at) + seq![0u8, 0u8, 0u8, 0u8] + b.skip(at + 4)
}

/// Is the CRC-32C at `at` that of all of `b` (with that field taken as zero)?
pub open spec fn sealed(b: Seq<u8>, at: int) -> bool {
    at + 4 <= b.len() && crc32c_of(0, zeroed(b, at)) == le32_at(b, at)
}

/// Checks a CRC-32C at `at` that covers all of `b` (with that field taken as zero).
pub fn checksum_ok(b: &[u8], at: usize) -> (r: bool)
    ensures
        r == sealed(b@, at as int),
{
    if at > b.len() || b.len() - at < 4 {
        return false;
    }
    let head: &[u8] = vstd::slice::slice_subrange(b, 0, at);
    let field: [u8; 4] = [0, 0, 0, 0];
    let tail: &[u8] = vstd::slice::slice_subrange(b, at + 4, b.len());
    let c: u32 = crc32c(crc32c(crc32c(0, head), &field), tail);
    proof {
        law_crc32c_in_parts(0, head@, field@);
        law_crc32c_in_parts(0, head@ + field@, tail@);
        assert(field@ == seq![0u8, 0u8, 0u8, 0u8]);
        assert(head@ + field@ + tail@ == zeroed(b@, at as int));
    }
    c == le32(b, at)
}

/// Where the two headers are, and how long they are.
pub const HEADER_1: u64 = 0x1_0000;

pub const HEADER_2: u64 = 0x2_0000;

pub const HEADER_LEN: usize = 0x1000;

pub open spec fn valid_header(h: Seq<u8>) -> bool {
    holds(h, 0, HEAD@) && sealed(h, 4) && le16_at(h, 66) == 1
}

/// The header at `offset`, if there is a valid one.
pub open spec fn header_at(src: Layers, file: Seq<u8>, offset: u64) -> Option<Seq<u8>> {
    match src.read(file, offset, HEADER_LEN as nat) {
        Ok(h) => if valid_header(h) {
            Some(h)
        } else {
            None
        },
        Err(_) => None,
    }
}

/// Of two headers, the one with the higher sequence number (the first of equals).
pub open spec fn newer(a: Option<Seq<u8>>, b: Option<Seq<u8>>) -> Option<Seq<u8>> {
    match (a, b) {
        (Some(x), Some(y)) => if le64_at(y, 8) > le64_at(x, 8) {
            b
        } else {
            a
        },
        (None, _) => b,
        (_, None) => a,
    }
}

/// The current header: of the two, the valid one with the higher sequence number.
pub open spec fn header_of(src: Layers, file: Seq<u8>) -> Result<Heading, Fault> {
    match newer(header_at(src, file, HEADER_1), header_at(src, file, HEADER_2)) {
        Some(h) => Ok(
            Heading {
                log_guid: h.subrange(48, 64),
                log_version: le16_at(h, 64),
                log_length: le32_at(h, 68) as u64,
                log_offset: le64_at(h, 72),
            },
        ),
        None => Err(bad_fault("the VHDX is damaged (no valid header)"@)),
    }
}

fn read_header(src: &Source, have: &Loaded, offset: u64) -> (r: Result<Option<Vec<u8>>, Stop>)
    requires
        src@.wf(),
    ensures
        match r {
            Ok(Some(h)) => h@.len() == HEADER_LEN && forall|file: Seq<u8>| #[trigger]
                have.shows(src@, file) ==> header_at(src@, file, offset) == Some(h@),
            Ok(None) => forall|file: Seq<u8>| #[trigger]
                have.shows(src@, file) ==> header_at(src@, file, offset) is None,
            Err(Stop::Failed(_)) => false,
            Err(Stop::Need { offset: o, len }) => have.lacks(src@, o, len),
        },
{
    match src.read_vec(have, offset, HEADER_LEN) {
        Ok(h) => {
            if has_bytes(&h, 0, &HEAD) && checksum_ok(&h, 4) && le16(&h, 66) == 1 {
                Ok(Some(h))
            } else {
                Ok(None)
            }
        },
        Err(Stop::Failed(_)) => Ok(None),
        Err(Stop::Need { offset: o, len }) => Err(Stop::Need { offset: o, len }),
    }
}

/// The current header: of the two, the valid one with the higher sequence number.
pub fn header(src: &Source, have: &Loaded) -> (r: Result<Header, Stop>)
    requires
        src@.wf(),
    ensures
        match r {
            Ok(h) => h.log_guid@.len() == 16 && forall|file: Seq<u8>| #[trigger]
                have.shows(src@, file) ==> header_of(src@, file) == Ok::<Heading, Fault>(h@),
            Err(Stop::Failed(e)) => forall|file: Seq<u8>| #[trigger]
                have.shows(src@, file) ==> header_of(src@, file) == Err::<Heading, Fault>(e@),
            Err(Stop::Need { offset, len }) => have.lacks(src@, offset, len),
        },
{
    let first: Option<Vec<u8>> = match read_header(src, have, HEADER_1) {
        Ok(h) => h,
        Err(s) => {
            return Err(s);
        },
    };
    let second: Option<Vec<u8>> = match read_header(src, have, HEADER_2) {
        Ok(h) => h,
        Err(s) => {
            return Err(s);
        },
    };
    let best: Option<Vec<u8>> = match (first, second) {
        (Some(a), Some(b)) => {
            if le64(&b, 8) > le64(&a, 8) {
                Some(b)
            } else {
                Some(a)
            }
        },
        (None, b) => b,
        (a, None) => a,
    };
    match best {
        Some(h) => Ok(
            Header {
                log_guid: bytes_at(&h, 48, 16),
                log_version: le16(&h, 64),
                log_length: le32(&h, 68) as u64,
                log_offset: le64(&h, 72),
            },
        ),
        None => Err(Stop::Failed(bad("the VHDX is damaged (no valid header)"))),
    }
}

// The region table and the metadata.

pub const REGIONS_1: u64 = 0x3_0000;

pub const REGIONS_2: u64 = 0x4_0000;

pub const TABLE_LEN: usize = 0x1_0000;

/// The region table at `offset`, if there is a valid one.
pub open spec fn regions_at(src: Layers, file: Seq<u8>, offset: u64) -> Option<Seq<u8>> {
    match src.read(file, offset, TABLE_LEN as nat) {
        Ok(t) => if holds(t, 0, REGI@) && sealed(t, 4) {
            Some(t)
        } else {
            None
        },
        Err(_) => None,
    }
}

/// The region table, or its copy.
pub open spec fn regions_of(src: Layers, file: Seq<u8>) -> Option<Seq<u8>> {
    match regions_at(src, file, REGIONS_1) {
        Some(t) => Some(t),
        None => regions_at(src, file, REGIONS_2),
    }
}

/// Entry `i` of a table of 32-byte entries after a head of `head` bytes.
pub open spec fn row(t: Seq<u8>, head: int, i: int) -> Seq<u8> {
    t.subrange(head + 32 * i, head + 32 * i + 32)
}

/// A part of the file: where it starts and how long it is.
#[derive(Clone, Copy, Debug, PartialEq, Eq, Structural)]
pub struct Region {
    pub offset: u64,
    pub len: u64,
}

/// Is region entry `i` one that has to be understood, and is not?
pub open spec fn strange_region(t: Seq<u8>, i: int) -> bool {
    let e = row(t, 16, i);
    !holds(e, 0, BAT_REGION@) && !holds(e, 0, METADATA_REGION@) && le32_at(e, 28) & 1 != 0
}

/// The last of the first `n` region entries with this id.
pub open spec fn region_named(t: Seq<u8>, id: Seq<u8>, n: nat) -> Option<Region>
    decreases n,
{
    if n == 0 {
        None
    } else {
        let e = row(t, 16, n - 1);
        if holds(e, 0, id) {
            Some(Region { offset: le64_at(e, 16), len: le32_at(e, 24) as u64 })
        } else {
            region_named(t, id, (n - 1) as nat)
        }
    }
}

/// Where the BAT and the metadata are.
pub open spec fn regions_in(t: Seq<u8>) -> Result<(Region, Region), Fault> {
    let n = le32_at(t, 8);
    if n > 2047 {
        Err(bad_fault("the VHDX is damaged (region table)"@))
    } else if exists|i: int| 0 <= i < n && #[trigger] strange_region(t, i) {
        Err(
            unsupported_fault(
                "this VHDX uses a feature DD-GUI doesn't know (an unknown required region)"@,
            ),
        )
    } else {
        match (region_named(t, BAT_REGION@, n as nat), region_named(t, METADATA_REGION@, n as nat)) {
            (None, _) => Err(bad_fault("the VHDX is damaged (no BAT region)"@)),
            (_, None) => Err(bad_fault("the VHDX is damaged (no metadata region)"@)),
            (Some(b), Some(m)) => Ok((b, m)),
        }
    }
}

fn regions(t: &[u8]) -> (r: Result<(Region, Region), Error>)
    requires
        t@.len() == TABLE_LEN,
    ensures
        crate::error::gives(r, regions_in(t@)),
{
    let count: u32 = le32(t, 8);
    if count > 2047 {
        return Err(bad("the VHDX is damaged (region table)"));
    }
    let mut bat: Option<Region> = None;
    let mut metadata: Option<Region> = None;
    let mut i: u32 = 0;
    proof {
        lemma_ids_differ();
    }
    while i < count
        invariant
            i <= count <= 2047,
            count == le32_at(t@, 8),
            t@.len() == TABLE_LEN,
            BAT_REGION@[0] != METADATA_REGION@[0],
            bat == region_named(t@, BAT_REGION@, i as nat),
            metadata == region_named(t@, METADATA_REGION@, i as nat),
            forall|k: int| 0 <= k < i ==> !#[trigger] strange_region(t@, k),
        decreases count - i,
    {
        let at: usize = 16 + 32 * i as usize;
        let e: Vec<u8> = bytes_at(t, at, 32);
        assert(e@ == row(t@, 16, i as int));
        let region: Region = Region { offset: le64(&e, 16), len: le32(&e, 24) as u64 };
        if has_bytes(&e, 0, &BAT_REGION) {
            proof {
                if holds(e@, 0, METADATA_REGION@) {
                    assert(e@.subrange(0, 16)[0] == BAT_REGION@[0]);
                }
            }
            bat = Some(region);
        } else if has_bytes(&e, 0, &METADATA_REGION) {
            metadata = Some(region);
        } else if le32(&e, 28) & 1 != 0 {
            assert(strange_region(t@, i as int));
            return Err(
                unsupported(
                    "this VHDX uses a feature DD-GUI doesn't know (an unknown required region)",
                ),
            );
        }
        i = i + 1;
    }
    match (bat, metadata) {
        (None, _) => Err(bad("the VHDX is damaged (no BAT region)")),
        (_, None) => Err(bad("the VHDX is damaged (no metadata region)")),
        (Some(b), Some(m)) => Ok((b, m)),
    }
}

proof fn lemma_ids_differ()
    ensures
        BAT_REGION@[0] != METADATA_REGION@[0],
{
}

/// How much of the metadata table is read.
pub open spec fn table_len(meta: Region) -> nat {
    if meta.len < 32 {
        32
    } else if meta.len > TABLE_LEN {
        TABLE_LEN as nat
    } else {
        meta.len as nat
    }
}

/// How many entries of a metadata table can be seen.
pub open spec fn rows(table: Seq<u8>) -> nat {
    let n = le16_at(table, 10) as nat;
    let room = ((table.len() - 32) / 32) as nat;
    if n <= room {
        n
    } else {
        room
    }
}

/// The first metadata entry with this id, from entry `i` on.
pub open spec fn item_row(table: Seq<u8>, id: Seq<u8>, i: nat) -> Option<nat>
    decreases rows(table) - i,
{
    if i >= rows(table) {
        None
    } else if holds(row(table, 32, i as int), 0, id) {
        Some(i)
    } else {
        item_row(table, id, i + 1)
    }
}

/// The `len` bytes of the metadata item `id`.
pub open spec fn item_of(src: Layers, file: Seq<u8>, meta: Region, table: Seq<u8>, id: Seq<u8>, len: nat) -> Result<
    Option<Seq<u8>>,
    Fault,
> {
    match item_row(table, id, 0) {
        None => Ok(None),
        Some(i) => {
            let e = row(table, 32, i as int);
            if le32_at(e, 20) < len || le32_at(e, 16) + len > meta.len {
                Err(bad_fault("the VHDX is damaged (metadata item out of place)"@))
            } else {
                match src.read(file, meta.offset.saturating_add(le32_at(e, 16) as u64), len) {
                    Ok(b) => Ok(Some(b)),
                    Err(f) => Err(f),
                }
            }
        },
    }
}

pub open spec fn known_item(e: Seq<u8>) -> bool {
    ||| holds(e, 0, FILE_PARAMETERS@)
    ||| holds(e, 0, VIRTUAL_DISK_SIZE@)
    ||| holds(e, 0, PAGE_83_DATA@)
    ||| holds(e, 0, LOGICAL_SECTOR_SIZE@)
    ||| holds(e, 0, PHYSICAL_SECTOR_SIZE@)
    ||| holds(e, 0, PARENT_LOCATOR@)
}

/// Is metadata entry `i` one that has to be understood, and is not?
pub open spec fn strange_item(table: Seq<u8>, i: int) -> bool {
    let e = row(table, 32, i);
    le32_at(e, 24) & 4 != 0 && !known_item(e)
}

/// How many payload entries stand before each sector bitmap entry of the BAT.
pub open spec fn chunk_ratio_of(logical_sector: u64, block_size: u64) -> int {
    0x80_0000 * logical_sector / block_size as int
}

/// Payload entries, with a sector bitmap entry after every `chunk_ratio` of them.
pub open spec fn bat_entries_of(size: u64, block_size: u64, logical_sector: u64) -> int {
    let blocks = blocks_of(size, block_size);
    if blocks == 0 {
        0
    } else {
        blocks + (blocks - 1) / chunk_ratio_of(logical_sector, block_size)
    }
}

/// The blocks of a disk.
pub open spec fn blocks_of(size: u64, block_size: u64) -> int {
    (size + block_size - 1) / block_size as int
}

/// The disk that the metadata's values describe.
pub open spec fn disk_from(bat: Region, block_size: u64, size: u64, logical_sector: u64) -> Result<Disk, Fault> {
    if !(MIB <= block_size <= 256 * MIB) || !power_of_two(block_size as nat) {
        Err(bad_fault("the VHDX is damaged (block size "@ + size_text_of(block_size as nat) + ")"@))
    } else if logical_sector != 512 && logical_sector != 4096 {
        Err(bad_fault("the VHDX is damaged (sector size "@ + decimal(logical_sector as nat) + ")"@))
    } else if size > 0x4000_0000_0000 {
        Err(bad_fault("the VHDX is damaged (a disk of "@ + size_text_of(size as nat) + ")"@))
    } else if bat_entries_of(size, block_size, logical_sector) * 8 > bat.len {
        Err(bad_fault("the VHDX is damaged (its BAT is too small for the disk)"@))
    } else {
        Ok(
            Disk {
                size,
                block_size,
                logical_sector,
                bat_offset: bat.offset,
                bat_entries: bat_entries_of(size, block_size, logical_sector) as u64,
            },
        )
    }
}

/// What the metadata table and its items say.
pub open spec fn metadata_of(src: Layers, file: Seq<u8>, bat: Region, meta: Region) -> Result<Disk, Fault> {
    match src.read(file, meta.offset, table_len(meta)) {
        Err(f) => Err(f),
        Ok(table) => if !holds(table, 0, METADATA@) {
            Err(bad_fault("the VHDX is damaged (metadata table)"@))
        } else if exists|i: int| 0 <= i < rows(table) && #[trigger] strange_item(table, i) {
            Err(
                unsupported_fault(
                    "this VHDX uses a feature DD-GUI doesn't know (an unknown required metadata item)"@,
                ),
            )
        } else {
            match item_of(src, file, meta, table, FILE_PARAMETERS@, 8) {
                Err(f) => Err(f),
                Ok(None) => Err(bad_fault("the VHDX is damaged (no file parameters)"@)),
                Ok(Some(params)) => if le32_at(params, 4) & 2 != 0 || item_row(table, PARENT_LOCATOR@, 0) is Some {
                    Err(unsupported_fault(DIFFERENCING@))
                } else {
                    match item_of(src, file, meta, table, VIRTUAL_DISK_SIZE@, 8) {
                        Err(f) => Err(f),
                        Ok(None) => Err(bad_fault("the VHDX is damaged (no disk size)"@)),
                        Ok(Some(size)) => match item_of(src, file, meta, table, LOGICAL_SECTOR_SIZE@, 4) {
                            Err(f) => Err(f),
                            Ok(None) => Err(bad_fault("the VHDX is damaged (no sector size)"@)),
                            Ok(Some(sector)) => disk_from(
                                bat,
                                le32_at(params, 0) as u64,
                                le64_at(size, 0),
                                le32_at(sector, 0) as u64,
                            ),
                        },
                    }
                },
            }
        },
    }
}

pub const DIFFERENCING: &'static str = "this is a differencing VHDX: it only holds the changes made on top of a parent disk, which DD-GUI doesn't support. Merge it into its parent first (Hyper-V Manager's Edit Disk, or `Merge-VHD` in PowerShell).";

/// What the file says about the disk it holds.
#[verifier::opaque]
pub open spec fn disk_of(src: Layers, file: Seq<u8>) -> Result<Disk, Fault> {
    match regions_of(src, file) {
        None => Err(bad_fault("the VHDX is damaged (no valid region table)"@)),
        Some(t) => match regions_in(t) {
            Err(f) => Err(f),
            Ok((bat, meta)) => metadata_of(src, file, bat, meta),
        },
    }
}

fn read_regions(src: &Source, have: &Loaded, offset: u64) -> (r: Result<Option<Vec<u8>>, Stop>)
    requires
        src@.wf(),
    ensures
        match r {
            Ok(Some(t)) => t@.len() == TABLE_LEN && forall|file: Seq<u8>| #[trigger]
                have.shows(src@, file) ==> regions_at(src@, file, offset) == Some(t@),
            Ok(None) => forall|file: Seq<u8>| #[trigger]
                have.shows(src@, file) ==> regions_at(src@, file, offset) is None,
            Err(Stop::Failed(_)) => false,
            Err(Stop::Need { offset: o, len }) => have.lacks(src@, o, len),
        },
{
    match src.read_vec(have, offset, TABLE_LEN) {
        Ok(t) => {
            if has_bytes(&t, 0, &REGI) && checksum_ok(&t, 4) {
                Ok(Some(t))
            } else {
                Ok(None)
            }
        },
        Err(Stop::Failed(_)) => Ok(None),
        Err(Stop::Need { offset: o, len }) => Err(Stop::Need { offset: o, len }),
    }
}

/// How many entries of a metadata table can be seen.
fn row_count(table: &[u8]) -> (n: usize)
    requires
        table@.len() >= 32,
    ensures
        n == rows(table@),
        32 + 32 * n <= table@.len(),
{
    let n: usize = le16(table, 10) as usize;
    let room: usize = (table.len() - 32) / 32;
    if n <= room {
        n
    } else {
        room
    }
}

fn find_item(table: &[u8], id: &[u8]) -> (r: Option<usize>)
    requires
        table@.len() >= 32,
    ensures
        match r {
            Some(i) => item_row(table@, id@, 0) == Some(i as nat) && i < rows(table@) && 32 + 32 * i + 32
                <= table@.len(),
            None => item_row(table@, id@, 0) is None,
        },
{
    let n: usize = row_count(table);
    let mut i: usize = 0;
    while i < n
        invariant
            i <= n,
            n == rows(table@),
            32 + 32 * n <= table@.len(),
            item_row(table@, id@, 0) == item_row(table@, id@, i as nat),
        decreases n - i,
    {
        let at: usize = 32 + 32 * i;
        let e: Vec<u8> = bytes_at(table, at, 32);
        assert(e@ == row(table@, 32, i as int));
        if has_bytes(&e, 0, id) {
            return Some(i);
        }
        i = i + 1;
    }
    None
}

fn item(src: &Source, have: &Loaded, meta: Region, table: &[u8], id: &[u8], len: usize) -> (r: Result<
    Option<Vec<u8>>,
    Stop,
>)
    requires
        src@.wf(),
        table@.len() >= 32,
        len <= 8,
    ensures
        match r {
            Ok(Some(b)) => b@.len() == len && forall|file: Seq<u8>| #[trigger]
                have.shows(src@, file) ==> item_of(src@, file, meta, table@, id@, len as nat) == Ok::<
                    Option<Seq<u8>>,
                    Fault,
                >(Some(b@)),
            Ok(None) => item_row(table@, id@, 0) is None,
            Err(Stop::Failed(e)) => forall|file: Seq<u8>| #[trigger]
                have.shows(src@, file) ==> item_of(src@, file, meta, table@, id@, len as nat) == Err::<
                    Option<Seq<u8>>,
                    Fault,
                >(e@),
            Err(Stop::Need { offset, len: l }) => have.lacks(src@, offset, l),
        },
{
    match find_item(table, id) {
        None => Ok(None),
        Some(i) => {
            let e: Vec<u8> = bytes_at(table, 32 + 32 * i, 32);
            assert(e@ == row(table@, 32, i as int));
            let offset: u64 = le32(&e, 16) as u64;
            if (le32(&e, 20) as usize) < len || offset + len as u64 > meta.len {
                return Err(Stop::Failed(bad("the VHDX is damaged (metadata item out of place)")));
            }
            match src.read_vec(have, meta.offset.saturating_add(offset), len) {
                Ok(b) => Ok(Some(b)),
                Err(s) => Err(s),
            }
        },
    }
}

/// Are all the metadata entries that have to be understood known?
fn items_known(table: &[u8]) -> (r: bool)
    requires
        table@.len() >= 32,
    ensures
        r == !(exists|i: int| 0 <= i < rows(table@) && #[trigger] strange_item(table@, i)),
{
    let n: usize = row_count(table);
    let mut i: usize = 0;
    while i < n
        invariant
            i <= n,
            n == rows(table@),
            32 + 32 * n <= table@.len(),
            forall|k: int| 0 <= k < i ==> !#[trigger] strange_item(table@, k),
        decreases n - i,
    {
        let at: usize = 32 + 32 * i;
        let e: Vec<u8> = bytes_at(table, at, 32);
        assert(e@ == row(table@, 32, i as int));
        let required: bool = le32(&e, 24) & 4 != 0;
        if required && !has_bytes(&e, 0, &FILE_PARAMETERS) && !has_bytes(&e, 0, &VIRTUAL_DISK_SIZE) && !has_bytes(
            &e,
            0,
            &PAGE_83_DATA,
        ) && !has_bytes(&e, 0, &LOGICAL_SECTOR_SIZE) && !has_bytes(&e, 0, &PHYSICAL_SECTOR_SIZE) && !has_bytes(
            &e,
            0,
            &PARENT_LOCATOR,
        ) {
            assert(strange_item(table@, i as int));
            return false;
        }
        i = i + 1;
    }
    true
}

proof fn lemma_geometry(size: u64, block_size: u64, logical_sector: u64)
    requires
        MIB <= block_size <= 256 * MIB,
        logical_sector == 512 || logical_sector == 4096,
        size <= 0x4000_0000_0000,
    ensures
        16 <= chunk_ratio_of(logical_sector, block_size) <= 0x8000,
        0 <= blocks_of(size, block_size) <= 0x400_0001,
        0 <= bat_entries_of(size, block_size, logical_sector) <= 0x800_0002,
{
    let a = 0x80_0000 * logical_sector;
    let b = block_size as int;
    let q = a / b;
    assert(16 <= q <= 0x8000) by (nonlinear_arith)
        requires
            q == a / b,
            0x10_0000 <= b <= 0x1000_0000,
            a == 0x1_0000_0000 || a == 0x8_0000_0000,
    ;
    let c = size + block_size - 1;
    let n = c / b;
    assert(0 <= n <= 0x400_0001) by (nonlinear_arith)
        requires
            n == c / b,
            0 <= c <= 0x4000_0000_0000 + 0x1000_0000,
            c <= 0x4000_0000_0000 + b,
            b >= 0x10_0000,
    ;
    if n > 0 {
        let m = (n - 1) / q;
        assert(0 <= m <= n - 1) by (nonlinear_arith)
            requires
                m == (n - 1) / q,
                q >= 16,
                n >= 1,
        ;
    }
}

/// The disk that the metadata's values describe.
fn checked_disk(bat: Region, block_size: u64, size: u64, logical_sector: u64) -> (r: Result<Disk, Error>)
    ensures
        crate::error::gives(r, disk_from(bat, block_size, size, logical_sector)),
{
    if block_size < MIB || block_size > 256 * MIB || !is_power_of_two(block_size) {
        let mut s: String = "the VHDX is damaged (block size ".to_owned();
        s.append(size_text(block_size).as_str());
        s.append(")");
        return Err(bad(s.as_str()));
    }
    if logical_sector != 512 && logical_sector != 4096 {
        let mut s: String = "the VHDX is damaged (sector size ".to_owned();
        push_decimal(&mut s, logical_sector);
        s.append(")");
        return Err(bad(s.as_str()));
    }
    if size > 0x4000_0000_0000 {
        let mut s: String = "the VHDX is damaged (a disk of ".to_owned();
        s.append(size_text(size).as_str());
        s.append(")");
        return Err(bad(s.as_str()));
    }
    proof {
        lemma_geometry(size, block_size, logical_sector);
    }
    let chunk_ratio: u64 = 0x80_0000 * logical_sector / block_size;
    let blocks: u64 = (size + block_size - 1) / block_size;
    let bat_entries: u64 = if blocks == 0 {
        0
    } else {
        blocks + (blocks - 1) / chunk_ratio
    };
    if bat_entries * 8 > bat.len {
        return Err(bad("the VHDX is damaged (its BAT is too small for the disk)"));
    }
    Ok(Disk { size, block_size, logical_sector, bat_offset: bat.offset, bat_entries })
}

/// Are the disk's sizes within what VHDX allows?
pub open spec fn fits(d: Disk) -> bool {
    &&& MIB <= d.block_size <= 256 * MIB
    &&& d.logical_sector == 512 || d.logical_sector == 4096
    &&& d.size <= 0x4000_0000_0000
}

/// What the metadata table and its items say.
#[verifier::rlimit(50)]
fn metadata(src: &Source, have: &Loaded, bat: Region, meta: Region) -> (r: Result<Disk, Stop>)
    requires
        src@.wf(),
    ensures
        match r {
            Ok(d) => forall|file: Seq<u8>| #[trigger]
                have.shows(src@, file) ==> metadata_of(src@, file, bat, meta) == Ok::<Disk, Fault>(d),
            Err(Stop::Failed(e)) => forall|file: Seq<u8>| #[trigger]
                have.shows(src@, file) ==> metadata_of(src@, file, bat, meta) == Err::<Disk, Fault>(e@),
            Err(Stop::Need { offset, len }) => have.lacks(src@, offset, len),
        },
        r matches Ok(d) ==> fits(d),
{
    // The metadata table: up to 2047 entries of 32 bytes after a 32-byte header.
    let len: usize = if meta.len < 32 {
        32
    } else if meta.len > TABLE_LEN as u64 {
        TABLE_LEN
    } else {
        meta.len as usize
    };
    let table: Vec<u8> = match src.read_vec(have, meta.offset, len) {
        Ok(t) => t,
        Err(s) => {
            return Err(s);
        },
    };
    if !has_bytes(&table, 0, &METADATA) {
        return Err(Stop::Failed(bad("the VHDX is damaged (metadata table)")));
    }
    if !items_known(&table) {
        return Err(
            Stop::Failed(
                unsupported(
                    "this VHDX uses a feature DD-GUI doesn't know (an unknown required metadata item)",
                ),
            ),
        );
    }
    let params: Vec<u8> = match item(src, have, meta, &table, &FILE_PARAMETERS, 8) {
        Ok(Some(b)) => b,
        Ok(None) => {
            return Err(Stop::Failed(bad("the VHDX is damaged (no file parameters)")));
        },
        Err(s) => {
            return Err(s);
        },
    };
    let block_size: u64 = le32(&params, 0) as u64;
    let has_parent: bool = le32(&params, 4) & 2 != 0;
    if has_parent || find_item(&table, &PARENT_LOCATOR).is_some() {
        return Err(Stop::Failed(unsupported(DIFFERENCING)));
    }
    let size: u64 = match item(src, have, meta, &table, &VIRTUAL_DISK_SIZE, 8) {
        Ok(Some(b)) => le64(&b, 0),
        Ok(None) => {
            return Err(Stop::Failed(bad("the VHDX is damaged (no disk size)")));
        },
        Err(s) => {
            return Err(s);
        },
    };
    let logical_sector: u64 = match item(src, have, meta, &table, &LOGICAL_SECTOR_SIZE, 4) {
        Ok(Some(b)) => le32(&b, 0) as u64,
        Ok(None) => {
            return Err(Stop::Failed(bad("the VHDX is damaged (no sector size)")));
        },
        Err(s) => {
            return Err(s);
        },
    };
    match checked_disk(bat, block_size, size, logical_sector) {
        Ok(d) => Ok(d),
        Err(e) => Err(Stop::Failed(e)),
    }
}

/// What the file says about the disk it holds.
pub fn disk(src: &Source, have: &Loaded) -> (r: Result<Disk, Stop>)
    requires
        src@.wf(),
    ensures
        match r {
            Ok(d) => forall|file: Seq<u8>| #[trigger]
                have.shows(src@, file) ==> disk_of(src@, file) == Ok::<Disk, Fault>(d),
            Err(Stop::Failed(e)) => forall|file: Seq<u8>| #[trigger]
                have.shows(src@, file) ==> disk_of(src@, file) == Err::<Disk, Fault>(e@),
            Err(Stop::Need { offset, len }) => have.lacks(src@, offset, len),
        },
        r matches Ok(d) ==> fits(d),
{
    reveal(disk_of);
    // The region table, or its copy.
    let first: Option<Vec<u8>> = match read_regions(src, have, REGIONS_1) {
        Ok(t) => t,
        Err(s) => {
            return Err(s);
        },
    };
    let found: Option<Vec<u8>> = match first {
        Some(t) => Some(t),
        None => match read_regions(src, have, REGIONS_2) {
            Ok(t) => t,
            Err(s) => {
                return Err(s);
            },
        },
    };
    let t: Vec<u8> = match found {
        Some(t) => t,
        None => {
            return Err(Stop::Failed(bad("the VHDX is damaged (no valid region table)")));
        },
    };
    let (bat, meta): (Region, Region) = match regions(&t) {
        Ok(r) => r,
        Err(e) => {
            return Err(Stop::Failed(e));
        },
    };
    metadata(src, have, bat, meta)
}

// The blocks.

/// The blocks of the disk, in order.
#[derive(Clone, Copy, Debug, PartialEq, Eq, Structural)]
pub struct Blocks {
    pub bat: Table,
    pub chunk_ratio: u64,
    pub block_size: u64,
    pub next: u64,
    pub blocks: u64,
}

/// What the BAT's entry for block `i` says: where the block is.
pub open spec fn block_piece(i: u64, entry: u64, block_size: u64) -> Result<Piece, Fault> {
    let offset = entry & 0xffff_ffff_fff0_0000;
    let state = entry & 7;
    if state == 6 && offset >= MIB {
        // Fully present.
        Ok(Piece { len: block_size, run: Run::Stored(offset) })
    } else if state == 0 || state == 1 || state == 2 || state == 3 || state == 5 {
        // Not present, undefined, zero, unmapped (two spellings): zeros.
        Ok(Piece { len: block_size, run: Run::Zeros })
    } else {
        Err(
            bad_fault(
                "the VHDX is damaged (block "@ + decimal(i as nat) + " is in state "@ + decimal(state as nat)
                    + " at byte "@ + decimal(offset as nat) + ")"@,
            ),
        )
    }
}

impl Layout for Blocks {
    open spec fn wf(self) -> bool {
        &&& self.bat.wf()
        &&& self.chunk_ratio > 0
        &&& self.bat.entry_size == 8
        &&& self.blocks < 0x1000_0000_0000
    }

    open spec fn step(self, src: Layers, file: Seq<u8>) -> Result<Option<(Piece, Self)>, Fault> {
        if self.next >= self.blocks {
            Ok(None)
        } else {
            let i = self.next;
            let after = Blocks { next: (self.next + 1) as u64, ..self };
            match self.bat.entry(src, file, (i + i / self.chunk_ratio) as u64) {
                Err(f) => Err(f),
                Ok(e) => match block_piece(
                    i,
                    match e {
                        Some(b) => le64_at(b, 0),
                        None => 0,
                    },
                    self.block_size,
                ) {
                    Ok(p) => Ok(Some((p, after))),
                    Err(f) => Err(f),
                },
            }
        }
    }

    fn next(&mut self, src: &Source, have: &Loaded) -> (r: Result<Option<Piece>, Stop>) {
        if self.next >= self.blocks {
            return Ok(None);
        }
        let i: u64 = self.next;
        proof {
            assert(0 <= i as int / self.chunk_ratio as int <= i) by (nonlinear_arith)
                requires
                    i >= 0,
                    self.chunk_ratio > 0,
            ;
        }
        let entry: u64 = match self.bat.get(src, have, i + i / self.chunk_ratio) {
            Ok(Some(b)) => le64(&b, 0),
            Ok(None) => 0,
            Err(s) => {
                return Err(s);
            },
        };
        let offset: u64 = entry & 0xffff_ffff_fff0_0000;
        let state: u64 = entry & 7;
        let piece: Piece = if state == 6 && offset >= MIB {
            Piece::stored(offset, self.block_size)
        } else if state == 0 || state == 1 || state == 2 || state == 3 || state == 5 {
            Piece::zeros(self.block_size)
        } else {
            let mut s: String = "the VHDX is damaged (block ".to_owned();
            push_decimal(&mut s, i);
            s.append(" is in state ");
            push_decimal(&mut s, state);
            s.append(" at byte ");
            push_decimal(&mut s, offset);
            s.append(")");
            return Err(Stop::Failed(bad(s.as_str())));
        };
        self.next = self.next + 1;
        Ok(Some(piece))
    }
}

// The log (MS-VHDX, "Log Replay").

/// `n` bytes of a circular log from `from` on.
pub open spec fn around(log: Seq<u8>, from: int, n: nat) -> Seq<u8> {
    Seq::new(n, |i: int| log[(from + i) % (log.len() as int)])
}

/// A log entry that checked out.
pub struct Entry {
    pub seq: u64,
    /// Bytes it takes in the log.
    pub len: u64,
    pub tail: u64,
    pub flushed_file_offset: u64,
    pub last_file_offset: u64,
    /// Its changes, in order.
    pub changes: Vec<Patch>,
}

/// What an `Entry` says.
#[verifier::ext_equal]
pub ghost struct Record {
    pub seq: u64,
    pub len: u64,
    pub tail: u64,
    pub flushed_file_offset: u64,
    pub last_file_offset: u64,
    pub changes: Seq<Change>,
}

impl View for Entry {
    type V = Record;

    open spec fn view(&self) -> Record {
        Record {
            seq: self.seq,
            len: self.len,
            tail: self.tail,
            flushed_file_offset: self.flushed_file_offset,
            last_file_offset: self.last_file_offset,
            changes: changes(self.changes@),
        }
    }
}

/// How many sectors the header of an entry and its descriptors fill.
pub open spec fn desc_sectors(descriptors: int) -> int {
    (descriptors + 2 + 127) / 128
}

/// Does an entry's header make sense in a log of `len` bytes?
pub open spec fn plausible(h: Seq<u8>, len: nat, guid: Seq<u8>) -> bool {
    let entry_len = le32_at(h, 8);
    let tail = le32_at(h, 12);
    &&& holds(h, 0, LOGE@)
    &&& entry_len != 0
    &&& entry_len as int % 4096 == 0
    &&& entry_len <= len
    &&& tail as int % 4096 == 0
    &&& tail < len
    &&& le64_at(h, 16) != 0
    &&& le32_at(h, 28) == 0
    &&& h.subrange(32, 48) == guid
    &&& desc_sectors(le32_at(h, 24) as int) * 4096 <= entry_len
}

/// A sector that a descriptor and its data sector give back.
pub open spec fn page(desc: Seq<u8>, s: Seq<u8>) -> Seq<u8> {
    desc.subrange(8, 16) + s.subrange(8, 4092) + desc.subrange(4, 8)
}

/// The change that descriptor `d` makes, when `sector` is the next data sector: the change,
/// and the data sector after it.
pub open spec fn change_of(entry: Seq<u8>, seq: u64, d: int, sector: int) -> Option<(Change, int)> {
    let desc = entry.subrange(64 + 32 * d, 96 + 32 * d);
    let offset = le64_at(desc, 16);
    if le64_at(desc, 24) != seq || offset as int % 4096 != 0 {
        None
    } else if holds(desc, 0, ZERO@) {
        let len = le64_at(desc, 8);
        if len as int % 4096 != 0 || le32_at(desc, 4) != 0 || len > MAX_FILE || offset > MAX_FILE {
            None
        } else {
            Some((Change { offset, len, data: None }, sector))
        }
    } else if holds(desc, 0, DESC@) {
        if offset > MAX_FILE || (sector + 1) * 4096 > entry.len() {
            None
        } else {
            let s = entry.subrange(sector * 4096, sector * 4096 + 4096);
            if !holds(s, 0, DATA@) || le32_at(s, 4) * 0x1_0000_0000 + le32_at(s, 4092) != seq {
                None
            } else {
                Some((Change { offset, len: 4096, data: Some(page(desc, s)) }, sector + 1))
            }
        }
    } else {
        None
    }
}

/// The changes that the first `n` descriptors make, and the next data sector.
pub open spec fn changes_of(entry: Seq<u8>, seq: u64, first: int, n: nat) -> Option<(Seq<Change>, int)>
    decreases n,
{
    if n == 0 {
        Some((Seq::empty(), first))
    } else {
        match changes_of(entry, seq, first, (n - 1) as nat) {
            None => None,
            Some((done, sector)) => match change_of(entry, seq, n - 1, sector) {
                None => None,
                Some((c, next)) => Some((done.push(c), next)),
            },
        }
    }
}

/// The log entry at `at` (MS-VHDX, "Log Entry").
#[verifier::opaque]
pub open spec fn entry_of(log: Seq<u8>, at: int, guid: Seq<u8>) -> Option<Record> {
    let h = around(log, at, 64);
    if !plausible(h, log.len(), guid) {
        None
    } else {
        let entry = around(log, at, le32_at(h, 8) as nat);
        let n = le32_at(h, 24) as nat;
        if !sealed(entry, 4) {
            None
        } else {
            match changes_of(entry, le64_at(h, 16), desc_sectors(n as int), n) {
                None => None,
                Some((list, _)) => Some(
                    Record {
                        seq: le64_at(h, 16),
                        len: le32_at(h, 8) as u64,
                        tail: le32_at(h, 12) as u64,
                        flushed_file_offset: le64_at(h, 48),
                        last_file_offset: if le64_at(h, 56) <= MAX_FILE {
                            le64_at(h, 56)
                        } else {
                            MAX_FILE
                        },
                        changes: list,
                    },
                ),
            }
        }
    }
}

/// What is left of `budget` after looking at the entry at `at`: checking one reads all of it.
#[verifier::opaque]
pub open spec fn budget_after(log: Seq<u8>, at: int, guid: Seq<u8>, budget: nat) -> nat {
    let h = around(log, at, 64);
    let cost = if plausible(h, log.len(), guid) {
        le32_at(h, 8) as nat
    } else {
        0
    };
    if cost >= budget {
        0
    } else {
        (budget - cost) as nat
    }
}

/// Bytes of the circular log from `from` on.
fn around_bytes(log: &[u8], from: u64, n: usize) -> (v: Vec<u8>)
    requires
        log@.len() > 0,
        from + n <= u64::MAX,
    ensures
        v@ == around(log@, from as int, n as nat),
{
    let mut v: Vec<u8> = Vec::new();
    while v.len() < n
        invariant
            log@.len() > 0,
            v@.len() <= n,
            from + n <= u64::MAX,
            v@ == around(log@, from as int, v@.len()),
        decreases n - v@.len(),
    {
        let at: u64 = (from + v.len() as u64) % log.len() as u64;
        v.push(log[at as usize]);
    }
    v
}

proof fn lemma_desc_fits(n: int, len: int)
    requires
        0 <= n,
        desc_sectors(n) * 4096 <= len,
    ensures
        64 + 32 * n <= len,
        desc_sectors(n) >= 1,
{
}

/// The change that descriptor `d` makes.
fn change(entry: &[u8], seq: u64, d: usize, sector: usize) -> (r: Option<(Patch, usize)>)
    requires
        96 + 32 * d <= entry@.len(),
        sector <= entry@.len(),
        entry@.len() <= 0x1_0000_0000,
    ensures
        match r {
            Some((p, next)) => change_of(entry@, seq, d as int, sector as int) == Some((p@, next as int)) && p@.wf()
                && p.offset <= MAX_FILE && p.len <= MAX_FILE && next <= entry@.len(),
            None => change_of(entry@, seq, d as int, sector as int) is None,
        },
{
    let desc: Vec<u8> = bytes_at(entry, 64 + 32 * d, 32);
    let offset: u64 = le64(&desc, 16);
    if le64(&desc, 24) != seq || offset % SECTOR != 0 {
        return None;
    }
    if has_bytes(&desc, 0, &ZERO) {
        let len: u64 = le64(&desc, 8);
        if len % SECTOR != 0 || le32(&desc, 4) != 0 || len > MAX_FILE || offset > MAX_FILE {
            return None;
        }
        return Some((Patch { offset, len, data: None }, sector));
    }
    if !has_bytes(&desc, 0, &DESC) {
        return None;
    }
    if offset > MAX_FILE || (sector as u64 + 1) * SECTOR > entry.len() as u64 {
        return None;
    }
    let s: Vec<u8> = bytes_at(entry, sector * 4096, 4096);
    let data_seq: u64 = le32(&s, 4) as u64 * 0x1_0000_0000 + le32(&s, 4092) as u64;
    if !has_bytes(&s, 0, &DATA) || data_seq != seq {
        return None;
    }
    // The first 8 and last 4 bytes of the sector are kept in the descriptor.
    let mut data: Vec<u8> = bytes_at(&desc, 8, 8);
    push_bytes(&mut data, vstd::slice::slice_subrange(&s, 8, 4092));
    push_bytes(&mut data, vstd::slice::slice_subrange(&desc, 4, 8));
    assert(data@ == page(desc@, s@));
    Some((Patch { offset, len: SECTOR, data: Some(data) }, sector + 1))
}

pub open spec fn small_changes(list: Seq<Patch>) -> bool {
    forall|i: int| 0 <= i < list.len() ==> {
        &&& (#[trigger] list[i])@.wf()
        &&& list[i].offset <= MAX_FILE
        &&& list[i].len <= MAX_FILE
    }
}

/// Reads and checks the log entry at `at` (MS-VHDX, "Log Entry").
pub fn parse_entry(log: &[u8], at: u64, log_guid: &[u8], budget: &mut u64) -> (r: Option<Entry>)
    requires
        0 < log@.len() <= 0x1_0000_0000,
        at <= 0x1_0000_0000,
        log_guid@.len() == 16,
    ensures
        *final(budget) == budget_after(log@, at as int, log_guid@, *old(budget) as nat),
        match r {
            Some(e) => entry_of(log@, at as int, log_guid@) == Some(e@) && small_changes(e.changes@),
            None => entry_of(log@, at as int, log_guid@) is None,
        },
{
    reveal(entry_of);
    reveal(budget_after);
    let len: u64 = log.len() as u64;
    let h: Vec<u8> = around_bytes(log, at, 64);
    let ghost head = around(log@, at as int, 64);
    let entry_len: u64 = le32(&h, 8) as u64;
    let tail: u64 = le32(&h, 12) as u64;
    let seq: u64 = le64(&h, 16);
    let descriptors: u64 = le32(&h, 24) as u64;
    if !has_bytes(&h, 0, &LOGE) {
        return None;
    }
    if entry_len == 0 || entry_len % SECTOR != 0 || entry_len > len || tail % SECTOR != 0 || tail >= len || seq == 0
        || le32(&h, 28) != 0 || !has_bytes(&h, 32, log_guid) {
        return None;
    }
    // The header and descriptors fill whole sectors; one data sector follows per data
    // descriptor.
    let sectors: u64 = (descriptors + 2 + 127) / 128;
    if sectors * SECTOR > entry_len {
        return None;
    }
    assert(plausible(head, log@.len(), log_guid@));
    *budget = budget.saturating_sub(entry_len);
    let entry: Vec<u8> = around_bytes(log, at, entry_len as usize);
    if !checksum_ok(&entry, 4) {
        return None;
    }
    let mut list: Vec<Patch> = Vec::new();
    let mut sector: usize = sectors as usize;
    let n: usize = descriptors as usize;
    let mut d: usize = 0;
    proof {
        assert(changes(list@) == Seq::<Change>::empty());
        lemma_desc_fits(n as int, entry@.len() as int);
    }
    while d < n
        invariant
            d <= n,
            64 + 32 * n <= entry@.len(),
            entry@.len() <= 0x1_0000_0000,
            sector <= entry@.len(),
            changes_of(entry@, seq, sectors as int, d as nat) == Some((changes(list@), sector as int)),
            small_changes(list@),
            // What a descriptor that fails means for all of them.
            n == le32_at(head, 24),
            entry@ == around(log@, at as int, le32_at(head, 8) as nat),
            head == around(log@, at as int, 64),
            plausible(head, log@.len(), log_guid@),
            sealed(entry@, 4),
            seq == le64_at(head, 16),
            sectors == desc_sectors(n as int),
            *budget == budget_after(log@, at as int, log_guid@, *old(budget) as nat),
        decreases n - d,
    {
        let ghost before = list@;
        match change(&entry, seq, d, sector) {
            None => {
                proof {
                    reveal(entry_of);
                    lemma_none_stays(entry@, seq, sectors as int, (d + 1) as nat, n as nat);
                }
                return None;
            },
            Some((p, next)) => {
                list.push(p);
                proof {
                    assert(changes(list@) == changes(before).push(p@));
                }
                sector = next;
            },
        }
        d = d + 1;
    }
    let last: u64 = le64(&h, 56);
    Some(
        Entry {
            seq,
            len: entry_len,
            tail,
            flushed_file_offset: le64(&h, 48),
            last_file_offset: if last <= MAX_FILE {
                last
            } else {
                MAX_FILE
            },
            changes: list,
        },
    )
}

/// Once a descriptor fails, the entry does.
proof fn lemma_none_stays(entry: Seq<u8>, seq: u64, first: int, d: nat, n: nat)
    requires
        d <= n,
        changes_of(entry, seq, first, d) is None,
    ensures
        changes_of(entry, seq, first, n) is None,
    decreases n,
{
    if d < n {
        lemma_none_stays(entry, seq, first, d, (n - 1) as nat);
    }
}

/// An entry in the log, and where it starts.
#[verifier::ext_equal]
pub ghost struct Placed {
    pub at: int,
    pub entry: Record,
}

/// A run of entries: what they are, where the next would start, and what is left of the
/// budget. None once there is nothing left.
#[verifier::ext_equal]
pub ghost struct Chain {
    pub entries: Seq<Placed>,
    pub head: int,
    pub budget: nat,
}

/// May an entry of number `seq` come after one of number `last`?
pub open spec fn comes_next(last: Option<u64>, seq: u64) -> bool {
    match last {
        None => true,
        Some(l) => l < u64::MAX && seq == l + 1,
    }
}

/// The run of consecutive entries from `head` on, after entries that cover `covered` bytes of
/// the log and end with number `last`.
pub open spec fn chain(
    log: Seq<u8>,
    guid: Seq<u8>,
    head: int,
    covered: nat,
    last: Option<u64>,
    budget: nat,
) -> Option<Chain>
    decreases (if covered < log.len() { log.len() - covered } else { 0 }),
    via chain_shrinks
{
    if covered >= log.len() {
        Some(Chain { entries: Seq::empty(), head, budget })
    } else {
        let left = budget_after(log, head, guid, budget);
        if left == 0 {
            None
        } else {
            match entry_of(log, head, guid) {
                None => Some(Chain { entries: Seq::empty(), head, budget: left }),
                Some(e) => if !comes_next(last, e.seq) {
                    Some(Chain { entries: Seq::empty(), head, budget: left })
                } else {
                    match chain(
                        log,
                        guid,
                        (head + e.len) % (log.len() as int),
                        covered + e.len as nat,
                        Some(e.seq),
                        left,
                    ) {
                        None => None,
                        Some(c) => Some(Chain { entries: seq![Placed { at: head, entry: e }] + c.entries, ..c }),
                    }
                },
            }
        }
    }
}

#[via_fn]
proof fn chain_shrinks(
    log: Seq<u8>,
    guid: Seq<u8>,
    head: int,
    covered: nat,
    last: Option<u64>,
    budget: nat,
) {
    lemma_entry_len(log, head, guid);
}

/// An entry takes room, and no more than there is.
proof fn lemma_entry_len(log: Seq<u8>, at: int, guid: Seq<u8>)
    ensures
        entry_of(log, at, guid) matches Some(e) ==> 4096 <= e.len <= log.len(),
{
    reveal(entry_of);
}

/// Is the tail of the newest entry one of the entries?
pub open spec fn complete(entries: Seq<Placed>) -> bool {
    entries.len() > 0 && exists|i: int|
        0 <= i < entries.len() && (#[trigger] entries[i]).at == entries.last().entry.tail
}

/// The scan for the active sequence: grow a run of consecutive entries from `tail`; keep the
/// complete one with the highest sequence number; move on past it (or one sector); stop once
/// the scan wraps around. None when the log cannot be made sense of.
pub open spec fn scan(
    log: Seq<u8>,
    guid: Seq<u8>,
    tail: int,
    old_tail: int,
    best: Seq<Placed>,
    budget: nat,
    rounds: nat,
) -> Option<Seq<Placed>>
    decreases rounds,
{
    if rounds == 0 {
        Some(best)
    } else {
        match chain(log, guid, tail, 0, None, budget) {
            None => None,
            Some(c) => {
                let best2 = if complete(c.entries) && c.entries.last().entry.seq > newest_of(best) {
                    c.entries
                } else {
                    best
                };
                let tail2 = if complete(c.entries) {
                    c.head
                } else {
                    (tail + 4096) % (log.len() as int)
                };
                if tail2 <= old_tail {
                    Some(best2)
                } else {
                    scan(log, guid, tail2, tail2, best2, c.budget, (rounds - 1) as nat)
                }
            },
        }
    }
}

/// The highest sequence number of some entries (0 of none).
pub open spec fn newest_of(entries: Seq<Placed>) -> u64 {
    if entries.len() == 0 {
        0
    } else {
        entries.last().entry.seq
    }
}

/// The entries from the one at `at` on.
pub open spec fn from_place(entries: Seq<Placed>, at: int) -> Seq<Placed>
    decreases entries.len(),
{
    if entries.len() == 0 || entries[0].at == at {
        entries
    } else {
        from_place(entries.skip(1), at)
    }
}

/// All the changes of some entries, in order.
pub open spec fn all_changes(entries: Seq<Placed>) -> Seq<Change>
    decreases entries.len(),
{
    if entries.len() == 0 {
        Seq::empty()
    } else {
        all_changes(entries.drop_last()) + entries.last().entry.changes
    }
}

/// Where a file of `size` bytes ends once some changes were made.
pub open spec fn end_after(size: u64, list: Seq<Change>) -> int
    decreases list.len(),
{
    if list.len() == 0 {
        size as int
    } else {
        let end = end_after(size, list.drop_last());
        if list.last().offset + list.last().len > end {
            list.last().offset + list.last().len
        } else {
            end
        }
    }
}

pub open spec fn nonsense() -> Fault {
    bad_fault("the VHDX is damaged (its log can't be made sense of)"@)
}

/// What replaying the log over a file of `size` bytes does: the changes, and the size the
/// file should have.
pub open spec fn replayed(log: Seq<u8>, guid: Seq<u8>, size: u64) -> Result<(Seq<Change>, u64), Fault> {
    match scan(log, guid, 0, 0, Seq::empty(), budget_for(log.len()), (log.len() / 4096 + 1) as nat) {
        None => Err(nonsense()),
        Some(entries) => if entries.len() == 0 {
            // No complete entry: nothing was logged before the writer stopped, so the file
            // is as it was.
            Ok((Seq::empty(), size))
        } else {
            let newest = entries.last().entry;
            if newest.flushed_file_offset > size {
                Err(
                    bad_fault(
                        "the VHDX is cut short: its log says the file had "@ + size_text_of(
                            newest.flushed_file_offset as nat,
                        ) + ", but it has "@ + size_text_of(size as nat),
                    ),
                )
            } else {
                let list = all_changes(from_place(entries, newest.tail as int));
                let least = if newest.last_file_offset > size {
                    newest.last_file_offset
                } else {
                    size
                };
                Ok((list, end_after(least, list) as u64))
            }
        },
    }
}

/// How much of the log is read at most. (A damaged log full of look-alike headers could make
/// checking them endless.)
pub open spec fn budget_for(len: nat) -> nat {
    16 * (if len >= 16 * MIB {
        len
    } else {
        16 * MIB as nat
    })
}

/// What replaying a pending log does.
pub open spec fn replay_of(src: Layers, file: Seq<u8>, header: Heading) -> Result<(Seq<Change>, u64), Fault> {
    let len = header.log_length;
    if header.log_version != 0 || header.log_offset < MIB || header.log_offset as int % 0x10_0000 != 0 || len as int
        % 0x10_0000 != 0 {
        Err(bad_fault("the VHDX is damaged (its log is out of place)"@))
    } else if len > 32 * MIB {
        Err(
            unsupported_fault(
                "this VHDX wasn't closed properly, and its log ("@ + size_text_of(len as nat)
                    + ") is too big for DD-GUI to replay. Attach and detach it in Windows (Disk Management) first, then try again."@,
            ),
        )
    } else {
        match src.read(file, header.log_offset, len as nat) {
            Err(f) => Err(f),
            Ok(log) => replayed(log, header.log_guid, src.size),
        }
    }
}

/// A log entry and where it starts.
pub struct Found {
    pub at: u64,
    pub entry: Entry,
}

pub open spec fn placed(v: Seq<Found>) -> Seq<Placed> {
    v.map_values(|f: Found| Placed { at: f.at as int, entry: f.entry@ })
}

pub open spec fn all_small(v: Seq<Found>) -> bool {
    forall|i: int| 0 <= i < v.len() ==> small_changes((#[trigger] v[i]).entry.changes@)
}

/// A run of consecutive entries from `tail` on, and where the next would start. None when
/// the budget is spent.
fn grow(log: &[u8], guid: &[u8], tail: u64, budget: &mut u64) -> (r: Option<(Vec<Found>, u64)>)
    requires
        0 < log@.len() <= 0x1_0000_0000,
        tail < log@.len(),
        guid@.len() == 16,
    ensures
        match r {
            Some((v, head)) => {
                &&& chain(log@, guid@, tail as int, 0, None, *old(budget) as nat) == Some(
                    Chain { entries: placed(v@), head: head as int, budget: *final(budget) as nat },
                )
                &&& head < log@.len()
                &&& all_small(v@)
            },
            None => chain(log@, guid@, tail as int, 0, None, *old(budget) as nat) is None,
        },
{
    let len: u64 = log.len() as u64;
    let mut v: Vec<Found> = Vec::new();
    let mut head: u64 = tail;
    let mut covered: u64 = 0;
    let mut last: Option<u64> = None;
    let ghost whole = chain(log@, guid@, tail as int, 0, None, *old(budget) as nat);
    proof {
        assert(placed(v@) == Seq::<Placed>::empty());
        if whole is Some {
            assert(placed(v@) + whole->0.entries == whole->0.entries);
        }
    }
    while covered < len
        invariant
            len == log@.len(),
            0 < len <= 0x1_0000_0000,
            head < len,
            guid@.len() == 16,
            covered <= 2 * len,
            all_small(v@),
            whole == chain(log@, guid@, tail as int, 0, None, *old(budget) as nat),
            match chain(log@, guid@, head as int, covered as nat, last, *budget as nat) {
                None => whole is None,
                Some(c) => whole == Some(Chain { entries: placed(v@) + c.entries, ..c }),
            },
        decreases (if covered < len { len - covered } else { 0 }),
    {
        let ghost here = *budget;
        let found: Option<Entry> = parse_entry(log, head, guid, budget);
        if *budget == 0 {
            return None;
        }
        let e: Entry = match found {
            None => {
                proof {
                    assert(placed(v@) + Seq::<Placed>::empty() == placed(v@));
                }
                return Some((v, head));
            },
            Some(e) => e,
        };
        let fits: bool = match last {
            None => true,
            Some(l) => l < u64::MAX && e.seq == l + 1,
        };
        if !fits {
            proof {
                assert(placed(v@) + Seq::<Placed>::empty() == placed(v@));
            }
            return Some((v, head));
        }
        proof {
            lemma_entry_len(log@, head as int, guid@);
        }
        covered = covered + e.len;
        let next: u64 = (head + e.len) % len;
        last = Some(e.seq);
        let ghost before = v@;
        let ghost one = Placed { at: head as int, entry: e@ };
        v.push(Found { at: head, entry: e });
        proof {
            assert(placed(v@) == placed(before).push(one));
            if let Some(c) = chain(log@, guid@, next as int, covered as nat, last, *budget as nat) {
                assert(placed(before) + (seq![one] + c.entries) == placed(v@) + c.entries);
            }
        }
        head = next;
    }
    proof {
        assert(placed(v@) + Seq::<Placed>::empty() == placed(v@));
    }
    Some((v, head))
}

fn is_complete(v: &[Found]) -> (r: bool)
    ensures
        r == complete(placed(v@)),
{
    if v.len() == 0 {
        return false;
    }
    let tail: u64 = v[v.len() - 1].entry.tail;
    let mut i: usize = 0;
    while i < v.len()
        invariant
            i <= v@.len(),
            v@.len() > 0,
            tail == placed(v@).last().entry.tail,
            forall|k: int| 0 <= k < i ==> (#[trigger] placed(v@)[k]).at != tail,
        decreases v@.len() - i,
    {
        if v[i].at == tail {
            assert(placed(v@)[i as int].at == tail);
            return true;
        }
        i = i + 1;
    }
    false
}

/// The active sequence of the log.
fn active(log: &[u8], guid: &[u8]) -> (r: Option<Vec<Found>>)
    requires
        4096 <= log@.len() <= 32 * MIB,
        guid@.len() == 16,
    ensures
        match r {
            Some(v) => {
                &&& scan(
                    log@,
                    guid@,
                    0,
                    0,
                    Seq::empty(),
                    budget_for(log@.len()),
                    (log@.len() / 4096 + 1) as nat,
                ) == Some(placed(v@))
                &&& all_small(v@)
            },
            None => scan(
                log@,
                guid@,
                0,
                0,
                Seq::empty(),
                budget_for(log@.len()),
                (log@.len() / 4096 + 1) as nat,
            ) is None,
        },
{
    let len: u64 = log.len() as u64;
    let mut budget: u64 = 16 * (if len >= 16 * MIB {
        len
    } else {
        16 * MIB
    });
    let mut best: Vec<Found> = Vec::new();
    let mut tail: u64 = 0;
    let mut old_tail: u64 = 0;
    let mut rounds: u64 = len / SECTOR + 1;
    proof {
        assert(placed(best@) == Seq::<Placed>::empty());
    }
    while rounds > 0
        invariant
            len == log@.len(),
            4096 <= len <= 32 * MIB,
            guid@.len() == 16,
            tail < len,
            all_small(best@),
            scan(log@, guid@, 0, 0, Seq::empty(), budget_for(log@.len()), (log@.len() / 4096 + 1) as nat) == scan(
                log@,
                guid@,
                tail as int,
                old_tail as int,
                placed(best@),
                budget as nat,
                rounds as nat,
            ),
        decreases rounds,
    {
        let (v, head): (Vec<Found>, u64) = match grow(log, guid, tail, &mut budget) {
            Some(g) => g,
            None => {
                return None;
            },
        };
        let newest: u64 = if best.len() == 0 {
            0
        } else {
            best[best.len() - 1].entry.seq
        };
        if is_complete(&v) {
            if v[v.len() - 1].entry.seq > newest {
                best = v;
            }
            tail = head;
        } else {
            tail = (tail + SECTOR) % len;
        }
        if tail <= old_tail {
            return Some(best);
        }
        old_tail = tail;
        rounds = rounds - 1;
    }
    Some(best)
}

/// Finds the active sequence of the log and turns it into patches over the file
/// (MS-VHDX, "Log Replay"). Returns them with the size the file should have.
pub fn replay(log: &[u8], guid: &[u8], size: u64) -> (r: Result<(Vec<Patch>, u64), Error>)
    requires
        4096 <= log@.len() <= 32 * MIB,
        guid@.len() == 16,
    ensures
        match r {
            Ok((list, end)) => replayed(log@, guid@, size) == Ok::<(Seq<Change>, u64), Fault>((changes(list@), end))
                && small_changes(list@),
            Err(e) => replayed(log@, guid@, size) == Err::<(Seq<Change>, u64), Fault>(e@),
        },
{
    let entries: Vec<Found> = match active(log, guid) {
        Some(v) => v,
        None => {
            return Err(bad("the VHDX is damaged (its log can't be made sense of)"));
        },
    };
    let ghost list0 = placed(entries@);
    let n: usize = entries.len();
    if n == 0 {
        let none: Vec<Patch> = Vec::new();
        assert(changes(none@) == Seq::<Change>::empty());
        return Ok((none, size));
    }
    let flushed: u64 = entries[n - 1].entry.flushed_file_offset;
    let end: u64 = entries[n - 1].entry.last_file_offset;
    let first: u64 = entries[n - 1].entry.tail;
    proof {
        assert(list0.last() == (Placed { at: entries@[n - 1].at as int, entry: entries@[n - 1].entry@ }));
    }
    if flushed > size {
        let mut s: String = "the VHDX is cut short: its log says the file had ".to_owned();
        s.append(size_text(flushed).as_str());
        s.append(", but it has ");
        s.append(size_text(size).as_str());
        return Err(bad(s.as_str()));
    }
    let mut skip: usize = 0;
    proof {
        assert(list0.skip(0) == list0);
    }
    while skip < n && entries[skip].at != first
        invariant
            skip <= n,
            n == entries@.len(),
            list0 == placed(entries@),
            from_place(list0, first as int) == from_place(list0.skip(skip as int), first as int),
        decreases n - skip,
    {
        proof {
            assert(list0.skip(skip as int)[0] == list0[skip as int]);
            assert(list0.skip(skip as int).skip(1) == list0.skip(skip + 1));
        }
        skip = skip + 1;
    }
    let ghost kept = from_place(list0, first as int);
    proof {
        if skip < n {
            assert(list0.skip(skip as int)[0] == list0[skip as int]);
        }
        assert(kept == list0.skip(skip as int));
    }
    let mut list: Vec<Patch> = Vec::new();
    let least: u64 = if end > size {
        end
    } else {
        size
    };
    let mut end_of_file: u64 = least;
    let mut left: Vec<Found> = entries;
    let mut i: usize = 0;
    proof {
        assert(kept.take(0) == Seq::<Placed>::empty());
        assert(changes(list@) == all_changes(kept.take(0)));
        assert(end_after(least, changes(list@)) == least);
    }
    let mut rest: Vec<Found> = left.split_off(skip);
    assert(placed(rest@) == kept);
    while i < rest.len()
        invariant
            i <= rest@.len(),
            all_small(rest@),
            small_changes(list@),
            placed(rest@) == kept,
            changes(list@) == all_changes(kept.take(i as int)),
            end_of_file == end_after(least, changes(list@)),
        decreases rest@.len() - i,
    {
        let e: &Entry = &rest[i].entry;
        let ghost before = list@;
        let mut k: usize = 0;
        proof {
            assert(small_changes(rest@[i as int].entry.changes@));
            assert(e.changes@.take(0) == Seq::<Patch>::empty());
            assert(changes(before) + changes(e.changes@.take(0)) == changes(before));
        }
        while k < e.changes.len()
            invariant
                k <= e.changes@.len(),
                small_changes(e.changes@),
                small_changes(list@),
                changes(list@) == changes(before) + changes(e.changes@.take(k as int)),
                end_of_file == end_after(least, changes(list@)),
            decreases e.changes@.len() - k,
        {
            let p: &Patch = &e.changes[k];
            assert(e.changes@[k as int]@.wf());
            let end: u64 = p.offset + p.len;
            let copy: Patch = Patch { offset: p.offset, len: p.len, data: copied(&p.data) };
            if end > end_of_file {
                end_of_file = end;
            }
            let ghost list1 = list@;
            list.push(copy);
            proof {
                assert(copy@ == p@);
                assert(changes(list@) == changes(list1).push(p@));
                assert(changes(list@).drop_last() == changes(list1));
                assert(changes(e.changes@.take(k + 1)) == changes(e.changes@.take(k as int)).push(p@));
                assert(changes(before) + changes(e.changes@.take(k as int)).push(p@) == (changes(before) + changes(
                    e.changes@.take(k as int),
                )).push(p@));
            }
            k = k + 1;
        }
        proof {
            assert(e.changes@.take(e.changes@.len() as int) == e.changes@);
            assert(kept.take(i + 1).drop_last() == kept.take(i as int));
            assert(kept.take(i + 1).last() == kept[i as int]);
        }
        i = i + 1;
    }
    proof {
        assert(kept.take(kept.len() as int) == kept);
    }
    Ok((list, end_of_file))
}

fn copied(d: &Option<Vec<u8>>) -> (r: Option<Vec<u8>>)
    ensures
        match (*d, r) {
            (Some(a), Some(b)) => a@ == b@,
            (None, None) => true,
            _ => false,
        },
{
    match d {
        Some(v) => Some(bytes_at(v.as_slice(), 0, v.len())),
        None => None,
    }
}

/// Reads a pending log and finds what replaying it does.
pub fn replay_log(src: &Source, have: &Loaded, header: &Header) -> (r: Result<(Vec<Patch>, u64), Stop>)
    requires
        src@.wf(),
        header.log_length != 0,
        header.log_guid@.len() == 16,
    ensures
        match r {
            Ok((list, end)) => small_changes(list@) && forall|file: Seq<u8>| #[trigger]
                have.shows(src@, file) ==> replay_of(src@, file, header@) == Ok::<(Seq<Change>, u64), Fault>(
                    (changes(list@), end),
                ),
            Err(Stop::Failed(e)) => forall|file: Seq<u8>| #[trigger]
                have.shows(src@, file) ==> replay_of(src@, file, header@) == Err::<(Seq<Change>, u64), Fault>(e@),
            Err(Stop::Need { offset, len }) => have.lacks(src@, offset, len),
        },
{
    let len: u64 = header.log_length;
    if header.log_version != 0 || header.log_offset < MIB || header.log_offset % MIB != 0 || len % MIB != 0 {
        return Err(Stop::Failed(bad("the VHDX is damaged (its log is out of place)")));
    }
    if len > 32 * MIB {
        let mut s: String = "this VHDX wasn't closed properly, and its log (".to_owned();
        s.append(size_text(len).as_str());
        s.append(
            ") is too big for DD-GUI to replay. Attach and detach it in Windows (Disk Management) first, then try again.",
        );
        return Err(Stop::Failed(unsupported(s.as_str())));
    }
    let log: Vec<u8> = match src.read_vec(have, header.log_offset, len as usize) {
        Ok(v) => v,
        Err(s) => {
            return Err(s);
        },
    };
    match replay(&log, &header.log_guid, src.size) {
        Ok(r) => Ok(r),
        Err(e) => Err(Stop::Failed(e)),
    }
}

// Opening.

/// Is there a log that has to be replayed?
pub open spec fn pending(h: Heading) -> bool {
    !all_zero(h.log_guid) && h.log_length != 0
}

pub open spec fn all_zero(s: Seq<u8>) -> bool {
    forall|i: int| 0 <= i < s.len() ==> #[trigger] s[i] == 0
}

fn is_zero(s: &[u8]) -> (r: bool)
    ensures
        r == all_zero(s@),
{
    let mut i: usize = 0;
    while i < s.len()
        invariant
            i <= s.len(),
            forall|k: int| 0 <= k < i ==> #[trigger] s@[k] == 0,
        decreases s.len() - i,
    {
        if s[i] != 0 {
            return false;
        }
        i = i + 1;
    }
    true
}

/// The image as its readers see it: with a pending log replayed.
pub open spec fn layers_of(size: u64, file: Seq<u8>) -> Result<Layers, Fault> {
    match header_of(plain(size), file) {
        Err(f) => Err(f),
        Ok(h) => if pending(h) {
            match replay_of(plain(size), file, h) {
                Err(f) => Err(f),
                Ok((list, end)) => Ok(plain(size).with(list, end)),
            }
        } else {
            Ok(plain(size))
        },
    }
}

/// The map of the disk that the metadata describes.
pub open spec fn blocks_for(d: Disk) -> Blocks {
    Blocks {
        bat: Table { offset: d.bat_offset, entries: d.bat_entries, entry_size: 8 },
        chunk_ratio: chunk_ratio_of(d.logical_sector, d.block_size) as u64,
        block_size: d.block_size,
        next: 0,
        blocks: blocks_of(d.size, d.block_size) as u64,
    }
}

/// The disk in a VHDX file of `size` bytes: the image as its readers see it, and what its
/// metadata says.
pub open spec fn opened(size: u64, file: Seq<u8>) -> Result<(Layers, Disk), Fault> {
    match layers_of(size, file) {
        Err(f) => Err(f),
        Ok(src) => match disk_of(src, file) {
            Err(f) => Err(f),
            Ok(d) => Ok((src, d)),
        },
    }
}

/// The disk's size, where it is known for sure: with no log pending.
pub open spec fn sure_size(src: Layers, file: Seq<u8>) -> Option<u64> {
    match header_of(src, file) {
        Err(_) => None,
        Ok(h) => if !all_zero(h.log_guid) {
            None
        } else {
            match disk_of(src, file) {
                Ok(d) => Some(d.size),
                Err(_) => None,
            }
        },
    }
}

/// Is this a VHDX, by the start of the file? With the disk's size, as far as it is known.
pub fn detect(src: &Source, have: &Loaded, head: &[u8]) -> (r: Result<Option<Detected>, Stop>)
    requires
        src@.wf(),
    ensures
        match r {
            Ok(None) => !holds(head@, 0, SIGNATURE@),
            Ok(Some(d)) => {
                &&& holds(head@, 0, SIGNATURE@)
                &&& d.format == ImageFormat::Vhdx
                &&& forall|file: Seq<u8>| #[trigger]
                    have.shows(src@, file) ==> d.raw_size == sure_size(src@, file)
            },
            Err(Stop::Failed(_)) => false,
            Err(Stop::Need { offset, len }) => have.lacks(src@, offset, len),
        },
{
    if !has_bytes(head, 0, &SIGNATURE) {
        return Ok(None);
    }
    // The size is only known for sure once a pending log has been applied.
    let raw_size: Option<u64> = match header(src, have) {
        Err(Stop::Need { offset, len }) => {
            return Err(Stop::Need { offset, len });
        },
        Err(Stop::Failed(_)) => None,
        Ok(h) => if !is_zero(&h.log_guid) {
            None
        } else {
            match disk(src, have) {
                Err(Stop::Need { offset, len }) => {
                    return Err(Stop::Need { offset, len });
                },
                Err(Stop::Failed(_)) => None,
                Ok(d) => Some(d.size),
            }
        },
    };
    Ok(Some(Detected { format: ImageFormat::Vhdx, raw_size }))
}

/// The image as its readers see it: with a pending log replayed.
fn replayed_source(size: u64, have: &Loaded) -> (r: Result<Source, Stop>)
    ensures
        match r {
            Ok(src) => {
                &&& src@.wf()
                &&& src@.size == size
                &&& forall|file: Seq<u8>| #[trigger]
                    have.shows(plain(size), file) ==> layers_of(size, file) == Ok::<Layers, Fault>(src@)
            },
            Err(Stop::Failed(e)) => forall|file: Seq<u8>| #[trigger]
                have.shows(plain(size), file) ==> layers_of(size, file) == Err::<Layers, Fault>(e@),
            Err(Stop::Need { offset, len }) => have.lacks(plain(size), offset, len),
        },
{
    let mut src: Source = Source::new(size);
    let header: Header = match header(&src, have) {
        Ok(h) => h,
        Err(s) => {
            return Err(s);
        },
    };
    if !is_zero(&header.log_guid) && header.log_length != 0 {
        match replay_log(&src, have, &header) {
            Ok((patches, end)) => {
                src.set_patches(patches, end);
            },
            Err(s) => {
                return Err(s);
            },
        }
    }
    Ok(src)
}

/// Opens the disk in a VHDX file of `size` bytes.
pub fn open(size: u64, have: &Loaded) -> (r: Result<VDisk<Blocks>, Stop>)
    ensures
        match r {
            Ok(d) => {
                &&& d.wf()
                &&& d.pos == 0
                &&& forall|file: Seq<u8>| #[trigger]
                    have.shows(plain(size), file) ==> {
                        &&& opened(size, file) is Ok
                        &&& d.src@ == (opened(size, file)->Ok_0).0
                        &&& d.size == (opened(size, file)->Ok_0).1.size
                        &&& d.opens(
                            blocks_for((opened(size, file)->Ok_0).1),
                            d.src@,
                            file,
                        )
                    }
            },
            Err(Stop::Failed(e)) => forall|file: Seq<u8>| #[trigger]
                have.shows(plain(size), file) ==> opened(size, file) == Err::<(Layers, Disk), Fault>(e@),
            Err(Stop::Need { offset, len }) => have.lacks(plain(size), offset, len),
        },
{
    let src: Source = match replayed_source(size, have) {
        Ok(s) => s,
        Err(s) => {
            return Err(s);
        },
    };
    proof {
        assert forall|file: Seq<u8>| #[trigger] have.shows(plain(size), file) implies layers_of(size, file) == Ok::<
            Layers,
            Fault,
        >(src@) && have.shows(src@, file) by {}
        assert forall|o: u64, l: usize| #[trigger] have.lacks(src@, o, l) implies have.lacks(plain(size), o, l) by {}
    }
    let disk: Disk = match disk(&src, have) {
        Ok(d) => d,
        Err(s) => {
            return Err(s);
        },
    };
    proof {
        lemma_geometry(disk.size, disk.block_size, disk.logical_sector);
    }
    let layout: Blocks = Blocks {
        bat: Table::new(disk.bat_offset, disk.bat_entries, 8),
        chunk_ratio: 0x80_0000 * disk.logical_sector / disk.block_size,
        block_size: disk.block_size,
        next: 0,
        blocks: (disk.size + disk.block_size - 1) / disk.block_size,
    };
    Ok(VDisk::new(src, disk.size, layout))
}

// What the disk holds, by the format.

/// Byte `p` of the disk in a VHDX image: of the block that holds it, if the block's entry says
/// that it is there. A sector bitmap's entry stands behind each `ratio` entries.
pub open spec fn disk_byte(src: Layers, file: Seq<u8>, d: Disk, p: int) -> u8 {
    let k = p / d.block_size as int;
    let ratio = 0x80_0000 * d.logical_sector / d.block_size as int;
    let entry = le_value(src.bytes(file, (d.bat_offset + 8 * (k + k / ratio)) as u64, 8));
    if entry % 8 == 6 {
        src.seen(file, (entry / 0x10_0000 * 0x10_0000) as int + p % d.block_size as int)
    } else {
        0
    }
}

proof fn lemma_disk(src: Layers, file: Seq<u8>, d: Disk)
    requires
        disk_of(src, file) == Ok::<Disk, Fault>(d),
    ensures
        fits(d),
        d.bat_entries == bat_entries_of(d.size, d.block_size, d.logical_sector),
        chunk_ratio_of(d.logical_sector, d.block_size) > 0,
        0 <= blocks_of(d.size, d.block_size) <= d.size,
        d.size <= blocks_of(d.size, d.block_size) * d.block_size,
        d.bat_entries <= 2 * d.size,
{
    reveal(disk_of);
    assert(fits(d));
    let b = d.block_size as int;
    let n = blocks_of(d.size, d.block_size);
    let ratio = chunk_ratio_of(d.logical_sector, d.block_size);
    assert(ratio > 0) by (nonlinear_arith)
        requires
            ratio == 0x80_0000 * d.logical_sector / b,
            d.logical_sector >= 512,
            0 < b <= 256 * 0x10_0000,
    ;
    assert(0 <= n <= d.size && d.size <= n * b) by (nonlinear_arith)
        requires
            n == (d.size + b - 1) / b,
            b >= 0x10_0000,
            d.size >= 0,
    ;
    if n > 0 {
        assert(0 <= (n - 1) / ratio <= n - 1) by (nonlinear_arith)
            requires
                n > 0,
                ratio > 0,
        ;
    }
}

spec fn stands(m: Blocks, d: Disk, pos: int) -> bool {
    m == (Blocks { next: m.next, ..blocks_for(d) }) && pos == m.next * d.block_size
}

#[verifier::spinoff_prover]
#[verifier::rlimit(40)]
proof fn lemma_leads(m: Blocks, src: Layers, file: Seq<u8>, d: Disk, pos: int)
    requires
        disk_of(src, file) == Ok::<Disk, Fault>(d),
        stands(m, d, pos),
        0 <= pos < d.size,
    ensures
        leads(
            m,
            src,
            file,
            d.size,
            pos,
            |x: Blocks, at: int| stands(x, d, at),
            |p: int| disk_byte(src, file, d, p),
        ),
{
    lemma_disk(src, file, d);
    let byte = |p: int| disk_byte(src, file, d, p);
    let size = d.block_size as int;
    let k = m.next as int;
    let n = blocks_of(d.size, d.block_size);
    let ratio = chunk_ratio_of(d.logical_sector, d.block_size);
    assert(k < n) by (nonlinear_arith)
        requires
            k * size < d.size,
            d.size <= n * size,
            size > 0,
    ;
    vstd::arithmetic::div_mod::lemma_div_is_ordered(k, n - 1, ratio);
    assert(0 <= k / ratio) by (nonlinear_arith)
        requires
            k >= 0,
            ratio > 0,
    ;
    assert(ratio <= 0x80_0000 * 4096) by (nonlinear_arith)
        requires
            ratio == 0x80_0000 * d.logical_sector / size,
            d.logical_sector <= 4096,
            size >= 1,
    ;
    let i = (m.next + m.next / m.chunk_ratio) as u64;
    assert(i == k + k / ratio);
    law_entries_are_at_their_places(m.bat, src, file, i);
    if let Ok(Some((p, next))) = m.step(src, file) {
        let b = src.bytes(file, (d.bat_offset + 8 * i) as u64, 8);
        law_fields_are_numbers(b, 0);
        assert(b.subrange(0, 8) =~= b);
        let e = le64_at(b, 0);
        assert((e & 0xffff_ffff_fff0_0000) == e / 0x10_0000 * 0x10_0000 && (e & 7) == e % 8) by (bit_vector);
        assert((k + 1) * size == k * size + size) by (nonlinear_arith);
        let len = least(p.len as int, d.size - pos) as nat;
        assert forall|j: int| 0 <= j < len implies #[trigger] piece_bytes(src, file, pos as u64, p, len)[j] == byte(
            pos + j,
        ) by {
            lemma_in_block(k, size, j);
        }
    }
}

/// The disk in a VHDX image, read to its end, is as the format says: each byte comes from the
/// block that its own entry of the block table points to, and is zero where that block isn't
/// there.
pub proof fn law_disk_is_as_the_format_says(
    disks: Seq<VDisk<Blocks>>,
    reads: Seq<Seq<u8>>,
    file: Seq<u8>,
    src: Layers,
    d: Disk,
)
    requires
        runs(disks, reads, file),
        disk_of(src, file) == Ok::<Disk, Fault>(d),
        disks[0].src@ == src,
        disks[0].size == d.size,
        disks[0].opens(blocks_for(d), src, file),
    ensures
        given(reads).len() == d.size,
        forall|p: int| 0 <= p < d.size ==> #[trigger] given(reads)[p] == disk_byte(src, file, d, p),
{
    let good = |x: Blocks, at: int| stands(x, d, at);
    let byte = |p: int| disk_byte(src, file, d, p);
    assert(0 * d.block_size == 0);
    assert(good(blocks_for(d), 0));
    assert forall|m: Blocks, pos: int| #[trigger] good(m, pos) && 0 <= pos < disks[0].size implies leads(
        m,
        disks[0].src@,
        file,
        disks[0].size,
        pos,
        good,
        byte,
    ) by {
        lemma_leads(m, src, file, d, pos);
    }
    law_disk_holds(disks, reads, file, blocks_for(d), good, byte);
    assert forall|p: int| 0 <= p < d.size implies #[trigger] given(reads)[p] == disk_byte(src, file, d, p) by {
        assert(given(reads)[p] == byte(p));
    }
}

// What headers, metadata and the log say, by the format.

proof fn lemma_header_len(src: Layers, file: Seq<u8>, offset: u64)
    ensures
        header_at(src, file, offset) matches Some(h) ==> h.len() == 4096,
{
}

/// The header that is used is a valid one whose sequence number no other valid one exceeds, and
/// says where the log is.
pub proof fn law_newest_header_is_used(src: Layers, file: Seq<u8>) -> (h: Seq<u8>)
    requires
        header_of(src, file) is Ok,
    ensures
        header_at(src, file, 0x1_0000) == Some(h) || header_at(src, file, 0x2_0000) == Some(h),
        header_at(src, file, 0x1_0000) matches Some(a) ==> le_value(a.subrange(8, 16)) <= le_value(h.subrange(8, 16)),
        header_at(src, file, 0x2_0000) matches Some(b) ==> le_value(b.subrange(8, 16)) <= le_value(h.subrange(8, 16)),
        header_of(src, file)->Ok_0.log_guid == h.subrange(48, 64),
        header_of(src, file)->Ok_0.log_version == le_value(h.subrange(64, 66)),
        header_of(src, file)->Ok_0.log_length == le_value(h.subrange(68, 72)),
        header_of(src, file)->Ok_0.log_offset == le_value(h.subrange(72, 80)),
{
    let (a, b) = (header_at(src, file, 0x1_0000), header_at(src, file, 0x2_0000));
    lemma_header_len(src, file, 0x1_0000);
    lemma_header_len(src, file, 0x2_0000);
    if a is Some {
        law_fields_are_numbers(a->0, 8);
    }
    if b is Some {
        law_fields_are_numbers(b->0, 8);
    }
    let h = newer(a, b)->0;
    law_fields_are_numbers(h, 64);
    law_fields_are_numbers(h, 68);
    law_fields_are_numbers(h, 72);
    h
}

proof fn lemma_item_row(table: Seq<u8>, id: Seq<u8>, from: nat)
    ensures
        item_row(table, id, from) matches Some(i) ==> {
            &&& from <= i < rows(table)
            &&& holds(row(table, 32, i as int), 0, id)
            &&& forall|k: int| from <= k < i ==> !holds(#[trigger] row(table, 32, k), 0, id)
        },
    decreases rows(table) - from,
{
    if from < rows(table) && !holds(row(table, 32, from as int), 0, id) {
        lemma_item_row(table, id, from + 1);
    }
}

/// A metadata item is what stands where the first entry of its name says.
pub proof fn law_items_are_where_entries_say(
    src: Layers,
    file: Seq<u8>,
    meta: Region,
    table: Seq<u8>,
    id: Seq<u8>,
    len: nat,
) -> (i: int)
    requires
        item_of(src, file, meta, table, id, len) matches Ok(Some(_)),
        table.len() >= 32,
        meta.offset + 0xffff_ffff <= u64::MAX,
    ensures
        0 <= i < rows(table),
        table.subrange(32 + 32 * i, 48 + 32 * i) == id || id.len() != 16,
        forall|k: int| 0 <= k < i ==> !holds(#[trigger] row(table, 32, k), 0, id),
        item_of(src, file, meta, table, id, len)->Ok_0 == Some(
            src.bytes(file, (meta.offset + le_value(row(table, 32, i).subrange(16, 20))) as u64, len),
        ),
{
    lemma_item_row(table, id, 0);
    let i = item_row(table, id, 0)->0 as int;
    let e = row(table, 32, i);
    law_fields_are_numbers(e, 16);
    assert(e.subrange(0, 16) =~= table.subrange(32 + 32 * i, 48 + 32 * i));
    i
}

/// The disk is as large, its blocks and its sectors as big as the items of these names say.
pub proof fn law_metadata_is_as_the_format_says(src: Layers, file: Seq<u8>, bat: Region, meta: Region)
    ensures
        metadata_of(src, file, bat, meta) matches Ok(d) ==> {
            let table = src.read(file, meta.offset, table_len(meta))->Ok_0;
            &&& item_of(src, file, meta, table, FILE_PARAMETERS@, 8) matches Ok(Some(p)) && d.block_size == le_value(
                p.subrange(0, 4),
            ) && le_value(p.subrange(4, 8)) / 2 % 2 == 0
            &&& item_of(src, file, meta, table, VIRTUAL_DISK_SIZE@, 8) matches Ok(Some(s)) && d.size == le_value(
                s.subrange(0, 8),
            )
            &&& item_of(src, file, meta, table, LOGICAL_SECTOR_SIZE@, 4) matches Ok(Some(s)) && d.logical_sector
                == le_value(s.subrange(0, 4))
            &&& d.bat_offset == bat.offset
            &&& 8 * d.bat_entries <= bat.len
        },
{
    if let Ok(d) = metadata_of(src, file, bat, meta) {
        let table = src.read(file, meta.offset, table_len(meta))->Ok_0;
        let p = (item_of(src, file, meta, table, FILE_PARAMETERS@, 8)->Ok_0)->0;
        let s = (item_of(src, file, meta, table, VIRTUAL_DISK_SIZE@, 8)->Ok_0)->0;
        let t = (item_of(src, file, meta, table, LOGICAL_SECTOR_SIZE@, 4)->Ok_0)->0;
        law_fields_are_numbers(p, 0);
        law_fields_are_numbers(p, 4);
        law_fields_are_numbers(s, 0);
        law_fields_are_numbers(t, 0);
        let flags = le32_at(p, 4);
        assert((flags & 2 == 0) == (flags / 2 % 2 == 0)) by (bit_vector);
        lemma_entries_fit(d.size, d.block_size, d.logical_sector);
    }
}

proof fn lemma_entries_fit(size: u64, block_size: u64, logical_sector: u64)
    requires
        1 <= block_size <= 0x80_0000 * logical_sector,
        logical_sector > 0,
    ensures
        0 <= bat_entries_of(size, block_size, logical_sector),
{
    let b = block_size as int;
    let n = (size + b - 1) / b;
    let ratio = 0x80_0000 * logical_sector / b;
    assert(ratio >= 1) by (nonlinear_arith)
        requires
            ratio == 0x80_0000 * logical_sector / b,
            1 <= b <= 0x80_0000 * logical_sector,
    ;
    assert(n >= 0) by (nonlinear_arith)
        requires
            n == (size + b - 1) / b,
            b >= 1,
    ;
    if n > 0 {
        assert((n - 1) / ratio >= 0) by (nonlinear_arith)
            requires
                n > 0,
                ratio >= 1,
        ;
    }
}

/// A descriptor of the log changes the place that it names: to zeros as far as it says, or to a
/// page whose first eight and last four bytes the descriptor keeps, and its data sector the rest.
pub proof fn law_log_pages_are_as_the_format_says(entry: Seq<u8>, seq: u64, d: int, sector: int)
    requires
        0 <= d,
        96 + 32 * d <= entry.len(),
        0 <= sector,
    ensures
        change_of(entry, seq, d, sector) matches Some((c, next)) ==> {
            let desc = entry.subrange(64 + 32 * d, 96 + 32 * d);
            &&& c.offset == le_value(desc.subrange(16, 24))
            &&& seq == le_value(desc.subrange(24, 32))
            &&& c.data is None ==> next == sector && c.len == le_value(desc.subrange(8, 16)) && desc.subrange(0, 4)
                == ZERO@
            &&& c.data matches Some(page) ==> {
                &&& next == sector + 1
                &&& desc.subrange(0, 4) == DESC@
                &&& c.len == 4096 && page.len() == 4096
                &&& forall|j: int| 0 <= j < 8 ==> #[trigger] page[j] == desc[8 + j]
                &&& forall|j: int| 8 <= j < 4092 ==> #[trigger] page[j] == entry[sector * 4096 + j]
                &&& forall|j: int| 4092 <= j < 4096 ==> #[trigger] page[j] == desc[4 + (j - 4092)]
            }
        },
{
    let desc = entry.subrange(64 + 32 * d, 96 + 32 * d);
    law_fields_are_numbers(desc, 8);
    law_fields_are_numbers(desc, 16);
    law_fields_are_numbers(desc, 24);
}

/// Entries of a log that follow each other: each is where the one before it ends, and its number
/// is the next.
pub open spec fn follow(log: Seq<u8>, guid: Seq<u8>, entries: Seq<Placed>) -> bool {
    &&& forall|i: int|
        0 <= i < entries.len() ==> entry_of(log, (#[trigger] entries[i]).at, guid) == Some(entries[i].entry)
    &&& forall|i: int|
        0 < i < entries.len() ==> (#[trigger] entries[i]).at == (entries[i - 1].at + entries[i - 1].entry.len) % (
        log.len() as int) && entries[i].entry.seq == entries[i - 1].entry.seq + 1
}

proof fn lemma_chain_follows(
    log: Seq<u8>,
    guid: Seq<u8>,
    head: int,
    covered: nat,
    last: Option<u64>,
    budget: nat,
)
    ensures
        chain(log, guid, head, covered, last, budget) matches Some(c) ==> {
            &&& follow(log, guid, c.entries)
            &&& c.entries.len() > 0 ==> c.entries[0].at == head && comes_next(last, c.entries[0].entry.seq)
        },
    decreases (if covered < log.len() { log.len() - covered } else { 0 }),
{
    lemma_entry_len(log, head, guid);
    if let Some(c) = chain(log, guid, head, covered, last, budget) {
        if c.entries.len() > 0 {
            let e = entry_of(log, head, guid)->0;
            let next = (head + e.len) % (log.len() as int);
            let left = budget_after(log, head, guid, budget);
            lemma_chain_follows(log, guid, next, covered + e.len as nat, Some(e.seq), left);
            let rest = chain(log, guid, next, covered + e.len as nat, Some(e.seq), left)->0;
            assert(c.entries == seq![Placed { at: head, entry: e }] + rest.entries);
            assert forall|i: int| 0 < i < c.entries.len() implies (#[trigger] c.entries[i]) == rest.entries[i - 1] by {}
            assert forall|i: int| 0 < i < c.entries.len() implies (#[trigger] c.entries[i]).at == (c.entries[i - 1].at
                + c.entries[i - 1].entry.len) % (log.len() as int) && c.entries[i].entry.seq == c.entries[i
                - 1].entry.seq + 1 by {
                if i > 1 {
                    assert(c.entries[i - 1] == rest.entries[i - 2]);
                }
            }
        }
    }
}

/// What a scan of the log settles on is a complete run of entries that follow each other, and no
/// older than what it had, or than the run that it started with.
pub proof fn law_scans_find_the_newest_run(
    log: Seq<u8>,
    guid: Seq<u8>,
    tail: int,
    old_tail: int,
    best: Seq<Placed>,
    budget: nat,
    rounds: nat,
)
    requires
        best.len() > 0 ==> complete(best) && follow(log, guid, best),
    ensures
        scan(log, guid, tail, old_tail, best, budget, rounds) matches Some(r) ==> {
            &&& r.len() > 0 ==> complete(r) && follow(log, guid, r)
            &&& newest_of(r) >= newest_of(best)
            &&& chain(log, guid, tail, 0, None, budget) matches Some(c) ==> rounds > 0 && complete(c.entries)
                ==> newest_of(r) >= c.entries.last().entry.seq
        },
    decreases rounds,
{
    if rounds > 0 {
        lemma_chain_follows(log, guid, tail, 0, None, budget);
        if let Some(c) = chain(log, guid, tail, 0, None, budget) {
            let best2 = if complete(c.entries) && c.entries.last().entry.seq > newest_of(best) {
                c.entries
            } else {
                best
            };
            let tail2 = if complete(c.entries) {
                c.head
            } else {
                (tail + 4096) % (log.len() as int)
            };
            if tail2 > old_tail {
                law_scans_find_the_newest_run(log, guid, tail2, tail2, best2, c.budget, (rounds - 1) as nat);
            }
        }
    }
}

proof fn lemma_from_place(entries: Seq<Placed>, at: int) -> (k: int)
    requires
        exists|i: int| 0 <= i < entries.len() && (#[trigger] entries[i]).at == at,
    ensures
        0 <= k < entries.len(),
        entries[k].at == at,
        from_place(entries, at) == entries.skip(k),
    decreases entries.len(),
{
    if entries[0].at == at {
        assert(entries.skip(0) =~= entries);
        0
    } else {
        let i = choose|i: int| 0 <= i < entries.len() && (#[trigger] entries[i]).at == at;
        assert(entries.skip(1)[i - 1].at == at);
        let k = lemma_from_place(entries.skip(1), at);
        assert(entries.skip(1).skip(k) =~= entries.skip(k + 1));
        k + 1
    }
}

/// What is replayed starts with the entry that the newest one names as the oldest still needed,
/// and goes on to the newest.
pub proof fn law_replays_start_at_the_tail(entries: Seq<Placed>) -> (k: int)
    requires
        complete(entries),
    ensures
        0 <= k < entries.len(),
        entries[k].at == entries.last().entry.tail,
        from_place(entries, entries.last().entry.tail as int) == entries.skip(k),
{
    lemma_from_place(entries, entries.last().entry.tail as int)
}

/// A file that was replayed over reaches to the end of every change.
pub proof fn law_replayed_files_hold_every_change(size: u64, list: Seq<Change>)
    ensures
        end_after(size, list) >= size,
        forall|i: int| 0 <= i < list.len() ==> (#[trigger] list[i]).offset + list[i].len <= end_after(size, list),
        end_after(size, list) == size || exists|i: int|
            0 <= i < list.len() && (#[trigger] list[i]).offset + list[i].len == end_after(size, list),
    decreases list.len(),
{
    if list.len() > 0 {
        let rest = list.drop_last();
        law_replayed_files_hold_every_change(size, rest);
        assert(forall|i: int| 0 <= i < rest.len() ==> #[trigger] list[i] == rest[i]);
        let end = end_after(size, rest);
        if end != size && end_after(size, list) == end {
            let i = choose|i: int| 0 <= i < rest.len() && (#[trigger] rest[i]).offset + rest[i].len == end;
            assert(list[i].offset + list[i].len == end);
        }
        assert(list[list.len() - 1] == list.last());
    }
}

/// A region is where the last entry of its name in the region table says.
pub proof fn law_regions_are_where_entries_say(t: Seq<u8>, id: Seq<u8>, n: nat) -> (i: int)
    requires
        region_named(t, id, n) is Some,
        16 + 32 * n <= t.len(),
    ensures
        0 <= i < n,
        holds(row(t, 16, i), 0, id),
        forall|k: int| i < k < n ==> !holds(#[trigger] row(t, 16, k), 0, id),
        region_named(t, id, n)->0.offset == le_value(t.subrange(32 + 32 * i, 40 + 32 * i)),
        region_named(t, id, n)->0.len == le_value(t.subrange(40 + 32 * i, 44 + 32 * i)),
    decreases n,
{
    let e = row(t, 16, n - 1);
    if holds(e, 0, id) {
        law_fields_are_numbers(e, 16);
        law_fields_are_numbers(e, 24);
        let i = n - 1;
        assert(e.subrange(16, 24) =~= t.subrange(32 + 32 * i, 40 + 32 * i));
        assert(e.subrange(24, 28) =~= t.subrange(40 + 32 * i, 44 + 32 * i));
        i
    } else {
        law_regions_are_where_entries_say(t, id, (n - 1) as nat)
    }
}

} // verus!
