//! VHD (Virtual PC, Hyper-V's first format): fixed disks are the raw disk followed by a
//! 512-byte footer; dynamic disks have a copy of the footer at the start, a header
//! ("cxsparse"), a block allocation table, and blocks that each start with a bitmap of the
//! sectors written in them. Differencing disks (changes on top of a parent disk) are not
//! supported.

use vstd::prelude::*;
use vstd::string::*;
use crate::engine::formats::source::{
    bad, be16, be16_at, be32, be32_at, be64, be64_at, be_value, bytes_at, has_bytes, holds, is_power_of_two,
    law_fields_are_numbers, plain, power_of_two, size_text, size_text_of, unsupported, Layers, Loaded, Source, Stop,
};
use vstd::arithmetic::power2::pow2;
use crate::engine::formats::vdisk::{
    given, law_disk_holds, law_entries_are_at_their_places, leads, least, lemma_in_block, piece_bytes, runs, Layout,
    Piece, Run, Table, VDisk,
};
use crate::engine::formats::Detected;
use crate::engine::ImageFormat;
use crate::error::{bad_fault, gives, unsupported_fault, Error, Fault};
use crate::text::{chars, decimal, from_utf16_lossy, lossy_utf16, push_decimal, trim, trimmed};

verus! {

/// "conectix": a footer.
pub const COOKIE: [u8; 8] = [0x63, 0x6f, 0x6e, 0x65, 0x63, 0x74, 0x69, 0x78];

/// "cxsparse": a dynamic disk's header.
pub const SPARSE: [u8; 8] = [0x63, 0x78, 0x73, 0x70, 0x61, 0x72, 0x73, 0x65];

/// "vpc ": made by Virtual PC.
pub const VPC: [u8; 4] = [0x76, 0x70, 0x63, 0x20];

/// "qemu": made by an old QEMU.
pub const QEMU: [u8; 4] = [0x71, 0x65, 0x6d, 0x75];

pub const FIXED: u32 = 2;

pub const DYNAMIC: u32 = 3;

pub const DIFFERENCING: u32 = 4;

pub const UNALLOCATED: u32 = 0xffff_ffff;

#[derive(Clone, Copy, Debug, PartialEq, Eq, Structural)]
pub struct Footer {
    pub data_offset: u64,
    pub size: u64,
    pub disk_type: u32,
    pub checksum_ok: bool,
}

/// The sum of the first `n` bytes, without the checksum field.
pub open spec fn byte_sum(b: Seq<u8>, n: nat) -> nat
    decreases n,
{
    if n == 0 {
        0
    } else {
        byte_sum(b, (n - 1) as nat) + if 64 <= n - 1 < 68 {
            0
        } else {
            b[n - 1] as nat
        }
    }
}

/// The size that a disk's geometry gives.
pub open spec fn geometry_size(b: Seq<u8>) -> int {
    be16_at(b, 56) * b[58] * b[59] * 512
}

/// The disk's size. Like QEMU: Virtual PC and old QEMU versions size the disk by its geometry
/// (the footer's size can be larger); everyone else by the size field. The largest geometry
/// means the size did not fit in it.
pub open spec fn footer_size(b: Seq<u8>) -> u64 {
    let chs = geometry_size(b);
    if (holds(b, 28, VPC@) || holds(b, 28, QEMU@)) && chs != 65535 * 16 * 255 * 512 && chs > 0 {
        chs as u64
    } else {
        be64_at(b, 48)
    }
}

/// The footer in `b`, if it is one.
pub open spec fn footer_in(b: Seq<u8>) -> Option<Footer> {
    if b.len() < 511 || !holds(b, 0, COOKIE@) {
        None
    } else {
        let n = if b.len() <= 512 {
            b.len()
        } else {
            512
        };
        Some(
            Footer {
                data_offset: be64_at(b, 16),
                size: footer_size(b),
                disk_type: be32_at(b, 60),
                // One's complement of the byte sum, without the checksum field itself.
                checksum_ok: !(byte_sum(b, n) as u32) == be32_at(b, 64),
            },
        )
    }
}

proof fn lemma_byte_sum(b: Seq<u8>, n: nat)
    ensures
        byte_sum(b, n) <= 255 * n,
    decreases n,
{
    if n > 0 {
        lemma_byte_sum(b, (n - 1) as nat);
    }
}

pub fn parse_footer(b: &[u8]) -> (r: Option<Footer>)
    ensures
        r == footer_in(b@),
{
    if b.len() < 511 || !has_bytes(b, 0, &COOKIE) {
        return None;
    }
    let n: usize = if b.len() <= 512 {
        b.len()
    } else {
        512
    };
    let mut sum: u32 = 0;
    let mut i: usize = 0;
    while i < n
        invariant
            i <= n <= 512,
            n <= b@.len(),
            sum == byte_sum(b@, i as nat),
            sum <= 255 * i,
        decreases n - i,
    {
        if i < 64 || i >= 68 {
            sum = sum + b[i] as u32;
        }
        i = i + 1;
    }
    let current_size: u64 = be64(b, 48);
    let cylinders: u64 = be16(b, 56) as u64;
    let heads: u64 = b[58] as u64;
    let per_track: u64 = b[59] as u64;
    proof {
        assert(cylinders * heads <= 0xffff * 0xff) by (nonlinear_arith)
            requires
                cylinders <= 0xffff,
                heads <= 0xff,
        ;
        assert(cylinders * heads * per_track <= 0xffff * 0xff * 0xff) by (nonlinear_arith)
            requires
                cylinders * heads <= 0xffff * 0xff,
                per_track <= 0xff,
        ;
    }
    let chs: u64 = cylinders * heads * per_track * 512;
    let by_geometry: bool = has_bytes(b, 28, &VPC) || has_bytes(b, 28, &QEMU);
    let size: u64 = if by_geometry && chs != 65535 * 16 * 255 * 512 && chs > 0 {
        chs
    } else {
        current_size
    };
    assert(chs == geometry_size(b@));
    Some(
        Footer { data_offset: be64(b, 16), size, disk_type: be32(b, 60), checksum_ok: !sum == be32(b, 64) },
    )
}

/// A footer of `len` bytes at the end of the file.
pub open spec fn footer_at_end(src: Layers, file: Seq<u8>, len: nat) -> Result<Option<Footer>, Fault> {
    if src.size < len {
        Ok(None)
    } else {
        match src.read(file, (src.size - len) as u64, len) {
            Err(f) => Err(f),
            Ok(b) => Ok(
                footer_in(
                    if len < 512 {
                        b.push(0)
                    } else {
                        b
                    },
                ),
            ),
        }
    }
}

/// A VHD footer at the end of the file (fixed disks have only that one), and its length. Some
/// old Virtual PC versions wrote 511-byte footers.
pub open spec fn tail_of(src: Layers, file: Seq<u8>) -> Result<Option<(Footer, u64)>, Fault> {
    match footer_at_end(src, file, 512) {
        Err(f) => Err(f),
        Ok(Some(f)) => Ok(Some((f, 512))),
        Ok(None) => match footer_at_end(src, file, 511) {
            Err(f) => Err(f),
            Ok(Some(f)) => Ok(Some((f, 511))),
            Ok(None) => Ok(None),
        },
    }
}

fn end_footer(src: &Source, have: &Loaded, len: usize) -> (r: Result<Option<Footer>, Stop>)
    requires
        src@.wf(),
        len == 511 || len == 512,
    ensures
        match r {
            Ok(f) => forall|file: Seq<u8>| #[trigger]
                have.shows(src@, file) ==> footer_at_end(src@, file, len as nat) == Ok::<Option<Footer>, Fault>(f),
            Err(Stop::Failed(e)) => forall|file: Seq<u8>| #[trigger]
                have.shows(src@, file) ==> footer_at_end(src@, file, len as nat) == Err::<Option<Footer>, Fault>(e@),
            Err(Stop::Need { offset, len }) => have.lacks(src@, offset, len),
        },
        r matches Ok(Some(_)) ==> src.size >= len,
{
    if src.size < len as u64 {
        return Ok(None);
    }
    match src.read_vec(have, src.size - len as u64, len) {
        Err(s) => Err(s),
        Ok(b) => {
            let mut b: Vec<u8> = b;
            if len < 512 {
                b.push(0);
            }
            Ok(parse_footer(&b))
        },
    }
}

/// A VHD footer at the end of the file.
pub fn tail_footer(src: &Source, have: &Loaded) -> (r: Result<Option<(Footer, u64)>, Stop>)
    requires
        src@.wf(),
    ensures
        match r {
            Ok(f) => forall|file: Seq<u8>| #[trigger]
                have.shows(src@, file) ==> tail_of(src@, file) == Ok::<Option<(Footer, u64)>, Fault>(f),
            Err(Stop::Failed(e)) => forall|file: Seq<u8>| #[trigger]
                have.shows(src@, file) ==> tail_of(src@, file) == Err::<Option<(Footer, u64)>, Fault>(e@),
            Err(Stop::Need { offset, len }) => have.lacks(src@, offset, len),
        },
        r matches Ok(Some(f)) ==> f.1 <= src.size,
{
    match end_footer(src, have, 512) {
        Err(s) => Err(s),
        Ok(Some(f)) => Ok(Some((f, 512))),
        Ok(None) => match end_footer(src, have, 511) {
            Err(s) => Err(s),
            Ok(Some(f)) => Ok(Some((f, 511))),
            Ok(None) => Ok(None),
        },
    }
}

/// What the start of a file says, if it is the copy of a footer.
pub open spec fn head_detected(head: Seq<u8>) -> Option<Detected> {
    if head.len() < 512 {
        None
    } else {
        match footer_in(head.take(512)) {
            None => None,
            Some(f) => if f.disk_type == DYNAMIC || f.disk_type == DIFFERENCING {
                Some(
                    Detected {
                        format: ImageFormat::Vhd,
                        raw_size: if f.disk_type == DYNAMIC && f.checksum_ok {
                            Some(f.size)
                        } else {
                            None
                        },
                    },
                )
            } else {
                None
            },
        }
    }
}

/// A dynamic or differencing VHD: the footer's copy is at the start.
pub fn detect_head(head: &[u8]) -> (r: Option<Detected>)
    ensures
        r == head_detected(head@),
{
    if head.len() < 512 {
        return None;
    }
    let b: Vec<u8> = bytes_at(head, 0, 512);
    assert(b@ == head@.take(512));
    match parse_footer(&b) {
        None => None,
        Some(f) => if f.disk_type == DYNAMIC || f.disk_type == DIFFERENCING {
            Some(
                Detected {
                    format: ImageFormat::Vhd,
                    raw_size: if f.disk_type == DYNAMIC && f.checksum_ok {
                        Some(f.size)
                    } else {
                        None
                    },
                },
            )
        } else {
            None
        },
    }
}

/// What the end of a file says, if it is a footer.
pub open spec fn tail_detected(src: Layers, file: Seq<u8>) -> Result<Option<Detected>, Fault> {
    match tail_of(src, file) {
        Err(f) => Err(f),
        Ok(None) => Ok(None),
        Ok(Some((f, _))) => if f.disk_type == FIXED || f.disk_type == DYNAMIC || f.disk_type == DIFFERENCING {
            Ok(
                Some(
                    Detected {
                        format: ImageFormat::Vhd,
                        raw_size: if f.checksum_ok && f.disk_type != DIFFERENCING {
                            Some(f.size)
                        } else {
                            None
                        },
                    },
                ),
            )
        } else {
            Ok(None)
        },
    }
}

/// A fixed VHD (or a dynamic one whose first footer copy is damaged): the footer at the end.
pub fn detect_tail(src: &Source, have: &Loaded) -> (r: Result<Option<Detected>, Stop>)
    requires
        src@.wf(),
    ensures
        match r {
            Ok(d) => forall|file: Seq<u8>| #[trigger]
                have.shows(src@, file) ==> tail_detected(src@, file) == Ok::<Option<Detected>, Fault>(d),
            Err(Stop::Failed(e)) => forall|file: Seq<u8>| #[trigger]
                have.shows(src@, file) ==> tail_detected(src@, file) == Err::<Option<Detected>, Fault>(e@),
            Err(Stop::Need { offset, len }) => have.lacks(src@, offset, len),
        },
{
    match tail_footer(src, have) {
        Err(s) => Err(s),
        Ok(None) => Ok(None),
        Ok(Some((f, _))) => if f.disk_type == FIXED || f.disk_type == DYNAMIC || f.disk_type == DIFFERENCING {
            let raw_size: Option<u64> = if f.checksum_ok && f.disk_type != DIFFERENCING {
                Some(f.size)
            } else {
                None
            };
            Ok(Some(Detected { format: ImageFormat::Vhd, raw_size }))
        } else {
            Ok(None)
        },
    }
}

// The map of the disk.

/// A dynamic disk's blocks.
#[derive(Clone, Copy, Debug, PartialEq, Eq, Structural)]
pub struct Dynamic {
    pub bat: Table,
    pub block_size: u64,
    pub bitmap_size: u64,
    pub next: u64,
    pub blocks: u64,
    /// A block of which not all was handed out: where it starts in the file, and the next
    /// sector.
    pub pending: Option<Pending>,
}

#[derive(Clone, Copy, Debug, PartialEq, Eq, Structural)]
pub struct Pending {
    pub start: u64,
    pub sector: u64,
}

/// Was sector `s` written? (Bits go from the most significant one of each byte.)
pub open spec fn written(bitmap: Seq<u8>, s: int) -> bool {
    bitmap[s / 8] & (0x80u8 >> ((s % 8) as u8)) != 0
}

/// How many sectors from `s` on, up to `sectors`, are written (or not) alike.
pub open spec fn alike_from(bitmap: Seq<u8>, s: int, sectors: int, set: bool) -> nat
    decreases sectors - s,
{
    if s < sectors && written(bitmap, s) == set {
        1 + alike_from(bitmap, s + 1, sectors, set)
    } else {
        0
    }
}

fn is_written(bitmap: &[u8], s: u64) -> (r: bool)
    requires
        s / 8 < bitmap@.len(),
    ensures
        r == written(bitmap@, s as int),
{
    let shift: u8 = (s % 8) as u8;
    bitmap[(s / 8) as usize] & (0x80u8 >> shift) != 0
}

fn alike_run(bitmap: &[u8], s: u64, sectors: u64, set: bool) -> (n: u64)
    requires
        s <= sectors,
        sectors <= 8 * bitmap@.len(),
        sectors <= 0x100_0000,
    ensures
        n == alike_from(bitmap@, s as int, sectors as int, set),
        s + n <= sectors,
{
    let mut t: u64 = s;
    while t < sectors && is_written(bitmap, t) == set
        invariant
            s <= t <= sectors,
            sectors <= 8 * bitmap@.len(),
            alike_from(bitmap@, s as int, sectors as int, set) == (t - s) + alike_from(
                bitmap@,
                t as int,
                sectors as int,
                set,
            ),
        decreases sectors - t,
    {
        t = t + 1;
    }
    t - s
}

impl Dynamic {
    pub open spec fn ok(self) -> bool {
        &&& self.bat.wf()
        &&& self.bat.entry_size == 4
        &&& 512 <= self.block_size <= 0x8000_0000
        &&& self.block_size % 512 == 0
        &&& self.bitmap_size == bitmap_size_of(self.block_size)
        &&& self.pending matches Some(p) ==> p.sector < self.block_size / 512 && p.start <= 0x200_0000_0000
        &&& self.blocks < u64::MAX
    }

    /// The next run of sectors of a block that starts at `start`. Sectors that were never
    /// written are zeros.
    pub open spec fn run(self, src: Layers, file: Seq<u8>, start: u64, s: u64) -> Result<(Piece, Self), Fault> {
        match src.read(file, start, self.bitmap_size as nat) {
            Err(f) => Err(f),
            Ok(bitmap) => {
                let sectors = (self.block_size / 512) as int;
                let set = written(bitmap, s as int);
                let n = alike_from(bitmap, s as int, sectors, set);
                let len = (n * 512) as u64;
                let run = if set {
                    Run::Stored((start + self.bitmap_size + s * 512) as u64)
                } else {
                    Run::Zeros
                };
                let pending = if s + n < sectors {
                    Some(Pending { start, sector: (s + n) as u64 })
                } else {
                    None
                };
                Ok((Piece { len, run }, Dynamic { pending, ..self }))
            },
        }
    }

    pub open spec fn block(self, src: Layers, file: Seq<u8>) -> Result<Option<(Piece, Self)>, Fault> {
        match self.pending {
            Some(p) => match self.run(src, file, p.start, p.sector) {
                Err(f) => Err(f),
                Ok(r) => Ok(Some(r)),
            },
            None => if self.next >= self.blocks {
                Ok(None)
            } else {
                let after = Dynamic { next: (self.next + 1) as u64, ..self };
                match self.bat.entry(src, file, self.next) {
                    Err(f) => Err(f),
                    Ok(e) => {
                        let entry = match e {
                            Some(b) => be32_at(b, 0),
                            None => UNALLOCATED,
                        };
                        if entry == UNALLOCATED {
                            Ok(Some((Piece { len: self.block_size, run: Run::Zeros }, after)))
                        } else {
                            match after.run(src, file, (entry * 512) as u64, 0) {
                                Err(f) => Err(f),
                                Ok(r) => Ok(Some(r)),
                            }
                        }
                    },
                }
            },
        }
    }

    fn next_run(&mut self, src: &Source, have: &Loaded, start: u64, s: u64) -> (r: Result<Piece, Stop>)
        requires
            old(self).ok(),
            src@.wf(),
            s < old(self).block_size / 512,
            start <= 0x200_0000_0000,
        ensures
            match r {
                Ok(p) => final(self).ok() && forall|file: Seq<u8>| #[trigger]
                    have.shows(src@, file) ==> old(self).run(src@, file, start, s) == Ok::<(Piece, Self), Fault>(
                        (p, *final(self)),
                    ),
                Err(Stop::Failed(e)) => forall|file: Seq<u8>| #[trigger]
                    have.shows(src@, file) ==> old(self).run(src@, file, start, s) == Err::<(Piece, Self), Fault>(
                        e@,
                    ),
                Err(Stop::Need { offset, len }) => *final(self) == *old(self) && have.lacks(src@, offset, len),
            },
    {
        proof {
            lemma_bitmap(self.block_size);
        }
        let bitmap: Vec<u8> = match src.read_vec(have, start, self.bitmap_size as usize) {
            Ok(b) => b,
            Err(s) => {
                return Err(s);
            },
        };
        let sectors: u64 = self.block_size / 512;
        let set: bool = is_written(&bitmap, s);
        let n: u64 = alike_run(&bitmap, s, sectors, set);
        let len: u64 = n * 512;
        let p: Piece = if set {
            Piece::stored(start + self.bitmap_size + s * 512, len)
        } else {
            Piece::zeros(len)
        };
        self.pending = if s + n < sectors {
            Some(Pending { start, sector: s + n })
        } else {
            None
        };
        Ok(p)
    }

    fn next_block(&mut self, src: &Source, have: &Loaded) -> (r: Result<Option<Piece>, Stop>)
        requires
            old(self).ok(),
            src@.wf(),
        ensures
            match r {
                Ok(Some(p)) => final(self).ok() && forall|file: Seq<u8>| #[trigger]
                    have.shows(src@, file) ==> old(self).block(src@, file) == Ok::<Option<(Piece, Self)>, Fault>(
                        Some((p, *final(self))),
                    ),
                Ok(None) => *final(self) == *old(self) && forall|file: Seq<u8>| #[trigger]
                    have.shows(src@, file) ==> old(self).block(src@, file) == Ok::<Option<(Piece, Self)>, Fault>(
                        None,
                    ),
                Err(Stop::Failed(e)) => forall|file: Seq<u8>| #[trigger]
                    have.shows(src@, file) ==> old(self).block(src@, file) == Err::<Option<(Piece, Self)>, Fault>(
                        e@,
                    ),
                Err(Stop::Need { offset, len }) => *final(self) == *old(self) && have.lacks(src@, offset, len),
            },
    {
        if let Some(p) = self.pending {
            return match self.next_run(src, have, p.start, p.sector) {
                Ok(p) => Ok(Some(p)),
                Err(s) => Err(s),
            };
        }
        if self.next >= self.blocks {
            return Ok(None);
        }
        let entry: u32 = match self.bat.get(src, have, self.next) {
            Ok(Some(b)) => be32(&b, 0),
            Ok(None) => UNALLOCATED,
            Err(s) => {
                return Err(s);
            },
        };
        self.next = self.next + 1;
        if entry == UNALLOCATED {
            return Ok(Some(Piece::zeros(self.block_size)));
        }
        match self.next_run(src, have, entry as u64 * 512, 0) {
            Ok(p) => Ok(Some(p)),
            Err(Stop::Failed(e)) => Err(Stop::Failed(e)),
            Err(Stop::Need { offset, len }) => {
                self.next = self.next - 1;
                Err(Stop::Need { offset, len })
            },
        }
    }
}

/// The size of a block's bitmap: one bit per sector, padded to whole sectors.
pub open spec fn bitmap_size_of(block_size: u64) -> int {
    let bytes = (block_size as int / 512 + 7) / 8;
    (bytes + 511) / 512 * 512
}

proof fn lemma_bitmap(block_size: u64)
    requires
        512 <= block_size <= 0x8000_0000,
    ensures
        block_size / 512 <= 8 * bitmap_size_of(block_size),
        512 <= bitmap_size_of(block_size) <= 0x8_0200,
        block_size / 512 <= 0x40_0000,
{
}

/// The disk's map: stored as is from the start of the file, or in blocks.
#[derive(Clone, Copy, Debug, PartialEq, Eq, Structural)]
pub enum Blocks {
    Whole(Option<u64>),
    Dynamic(Dynamic),
}

impl Layout for Blocks {
    open spec fn wf(self) -> bool {
        self matches Blocks::Dynamic(d) ==> d.ok()
    }

    open spec fn step(self, src: Layers, file: Seq<u8>) -> Result<Option<(Piece, Self)>, Fault> {
        match self {
            Blocks::Whole(None) => Ok(None),
            Blocks::Whole(Some(len)) => Ok(Some((Piece { len, run: Run::Stored(0) }, Blocks::Whole(None)))),
            Blocks::Dynamic(d) => match d.block(src, file) {
                Err(f) => Err(f),
                Ok(None) => Ok(None),
                Ok(Some((p, next))) => Ok(Some((p, Blocks::Dynamic(next)))),
            },
        }
    }

    fn next(&mut self, src: &Source, have: &Loaded) -> (r: Result<Option<Piece>, Stop>) {
        match *self {
            Blocks::Whole(None) => Ok(None),
            Blocks::Whole(Some(len)) => {
                *self = Blocks::Whole(None);
                Ok(Some(Piece::stored(0, len)))
            },
            Blocks::Dynamic(d) => {
                let mut d: Dynamic = d;
                let r: Result<Option<Piece>, Stop> = d.next_block(src, have);
                *self = Blocks::Dynamic(d);
                r
            },
        }
    }
}

// Opening.

/// UTF-16 units in `b` from `at` on, up to a zero one or to `end`.
pub open spec fn units_from(b: Seq<u8>, at: int, end: int) -> Seq<u16>
    decreases end - at,
{
    if at + 2 > end || be16_at(b, at) == 0 {
        Seq::empty()
    } else {
        seq![be16_at(b, at)] + units_from(b, at + 2, end)
    }
}

/// The name of a differencing disk's parent, if it has one.
pub open spec fn parent_of(header: Seq<u8>) -> Option<Seq<char>> {
    let name = lossy_utf16(units_from(header, 64, 576));
    if trim(name).len() > 0 {
        Some(name)
    } else {
        None
    }
}

fn parent_name(header: &[u8]) -> (r: Option<String>)
    requires
        header@.len() >= 576,
    ensures
        match r {
            Some(n) => parent_of(header@) == Some(n@),
            None => parent_of(header@) is None,
        },
{
    let mut units: Vec<u16> = Vec::new();
    let mut at: usize = 64;
    while at + 2 <= 576 && be16(header, at) != 0
        invariant
            64 <= at <= 576,
            header@.len() >= 576,
            units_from(header@, 64, 576) == units@ + units_from(header@, at as int, 576),
        decreases 576 - at,
    {
        let u: u16 = be16(header, at);
        let ghost before = units@;
        units.push(u);
        proof {
            let rest = units_from(header@, at + 2, 576);
            assert(before + (seq![u] + rest) == units@ + rest);
        }
        at = at + 2;
    }
    proof {
        assert(units@ + Seq::<u16>::empty() == units@);
    }
    let name: String = from_utf16_lossy(&units);
    let v: Vec<char> = chars(name.as_str());
    let t: Vec<char> = trimmed(&v);
    if t.len() > 0 {
        Some(name)
    } else {
        None
    }
}

pub open spec fn no_header() -> Fault {
    bad_fault("the VHD is damaged (its dynamic disk header is missing)"@)
}

/// The map of a dynamic disk, as its header describes it.
pub open spec fn dynamic_of(header: Seq<u8>, f: Footer) -> Result<Blocks, Fault> {
    let block_size = be32_at(header, 32) as u64;
    let entries = be32_at(header, 28) as u64;
    if !holds(header, 0, SPARSE@) {
        Err(no_header())
    } else if f.disk_type == DIFFERENCING {
        Err(
            unsupported_fault(
                "this is a differencing VHD: it only holds the changes made on top of another disk"@ + (match parent_of(
                    header,
                ) {
                    Some(n) => " ("@ + n + ")"@,
                    None => Seq::empty(),
                })
                    + ", which DD-GUI doesn't support. Merge it into a whole disk first, e.g. with `qemu-img convert -O vpc child.vhd whole.vhd` (next to its parent), or with Hyper-V's Edit Disk."@,
            ),
        )
    } else if !power_of_two(block_size as nat) || block_size < 512 {
        Err(bad_fault("the VHD is damaged (block size "@ + decimal(block_size as nat) + ")"@))
    } else {
        let blocks = (f.size + block_size - 1) / block_size as int;
        Ok(
            Blocks::Dynamic(
                Dynamic {
                    bat: Table {
                        offset: be64_at(header, 16),
                        entries: if entries <= blocks {
                            entries
                        } else {
                            blocks as u64
                        },
                        entry_size: 4,
                    },
                    block_size,
                    bitmap_size: bitmap_size_of(block_size) as u64,
                    next: 0,
                    blocks: blocks as u64,
                    pending: None,
                },
            ),
        )
    }
}

/// The footer that counts: the copy at the start of a dynamic disk, or the one at the end.
pub open spec fn chosen(head: Option<Footer>, tail: Option<(Footer, u64)>) -> Option<Footer> {
    if head is Some && head->0.checksum_ok && head->0.disk_type != FIXED {
        head
    } else if tail is Some && (tail->0).0.checksum_ok {
        Some((tail->0).0)
    } else {
        None
    }
}

/// The disk: its size and its map.
pub open spec fn opened(src: Layers, file: Seq<u8>) -> Result<(u64, Blocks), Fault> {
    match src.read_upto(file, 0, 512) {
        Err(f) => Err(f),
        Ok(head) => match tail_of(src, file) {
            Err(f) => Err(f),
            Ok(tail) => match chosen(footer_in(head), tail) {
                None => Err(bad_fault("the VHD footer is damaged (its checksum doesn't match)"@)),
                Some(f) => if f.disk_type == FIXED {
                    let data = src.size - (tail->0).1;
                    if f.size > data {
                        Err(
                            bad_fault(
                                "the VHD is cut short: it should hold "@ + size_text_of(f.size as nat)
                                    + " of disk data, but has "@ + size_text_of(data as nat),
                            ),
                        )
                    } else {
                        Ok((f.size, Blocks::Whole(Some(f.size))))
                    }
                } else if f.disk_type == DYNAMIC || f.disk_type == DIFFERENCING {
                    match src.read(file, f.data_offset, 1024) {
                        Err(_) => Err(no_header()),
                        Ok(header) => match dynamic_of(header, f) {
                            Err(e) => Err(e),
                            Ok(l) => Ok((f.size, l)),
                        },
                    }
                } else {
                    Err(
                        bad_fault("the VHD is damaged (unknown disk type "@ + decimal(f.disk_type as nat) + ")"@),
                    )
                },
            },
        },
    }
}

proof fn lemma_power(n: nat)
    requires
        power_of_two(n),
        512 <= n <= 0xffff_ffff,
    ensures
        n % 512 == 0,
        n <= 0x8000_0000,
{
    reveal_with_fuel(power_of_two, 34);
}

fn dynamic(header: &[u8], f: &Footer) -> (r: Result<Blocks, Error>)
    requires
        header@.len() == 1024,
    ensures
        gives(r, dynamic_of(header@, *f)),
        r matches Ok(l) ==> l.wf(),
{
    if !has_bytes(header, 0, &SPARSE) {
        return Err(bad("the VHD is damaged (its dynamic disk header is missing)"));
    }
    if f.disk_type == DIFFERENCING {
        let mut s: String = "this is a differencing VHD: it only holds the changes made on top of another disk".to_owned();
        let name: Option<String> = parent_name(header);
        if let Some(n) = &name {
            s.append(" (");
            s.append(n.as_str());
            s.append(")");
        }
        s.append(
            ", which DD-GUI doesn't support. Merge it into a whole disk first, e.g. with `qemu-img convert -O vpc child.vhd whole.vhd` (next to its parent), or with Hyper-V's Edit Disk.",
        );
        proof {
            let start = "this is a differencing VHD: it only holds the changes made on top of another disk"@;
            let end = ", which DD-GUI doesn't support. Merge it into a whole disk first, e.g. with `qemu-img convert -O vpc child.vhd whole.vhd` (next to its parent), or with Hyper-V's Edit Disk."@;
            match parent_of(header@) {
                Some(n) => {
                    assert(s@ == start + (" ("@ + n + ")"@) + end);
                },
                None => {
                    assert(s@ == start + Seq::<char>::empty() + end);
                },
            }
        }
        return Err(unsupported(s.as_str()));
    }
    let table: u64 = be64(header, 16);
    let entries: u64 = be32(header, 28) as u64;
    let block_size: u64 = be32(header, 32) as u64;
    if !is_power_of_two(block_size) || block_size < 512 {
        let mut s: String = "the VHD is damaged (block size ".to_owned();
        push_decimal(&mut s, block_size);
        s.append(")");
        return Err(bad(s.as_str()));
    }
    proof {
        lemma_power(block_size as nat);
        lemma_bitmap(block_size);
    }
    let bytes: u64 = (block_size / 512 + 7) / 8;
    let bitmap_size: u64 = (bytes + 511) / 512 * 512;
    let blocks: u64 = blocks_for(f.size, block_size);
    Ok(
        Blocks::Dynamic(
            Dynamic {
                bat: Table::new(
                    table,
                    if entries <= blocks {
                        entries
                    } else {
                        blocks
                    },
                    4,
                ),
                block_size,
                bitmap_size,
                next: 0,
                blocks,
                pending: None,
            },
        ),
    )
}

/// How many blocks a disk has.
fn blocks_for(size: u64, block_size: u64) -> (n: u64)
    requires
        512 <= block_size <= 0x8000_0000,
    ensures
        n == (size + block_size - 1) / block_size as int,
        n < u64::MAX,
{
    let n: u128 = (size as u128 + block_size as u128 - 1) / block_size as u128;
    proof {
        assert(n <= (size + block_size - 1) / 512) by (nonlinear_arith)
            requires
                n == (size + block_size - 1) / block_size as int,
                block_size >= 512,
                size >= 0,
        ;
    }
    n as u64
}

/// Opens the disk in a VHD file of `size` bytes.
#[verifier::spinoff_prover]
#[verifier::rlimit(30)]
pub fn open(size: u64, have: &Loaded) -> (r: Result<VDisk<Blocks>, Stop>)
    ensures
        match r {
            Ok(d) => {
                &&& d.wf()
                &&& d.pos == 0
                &&& d.src@ == plain(size)
                &&& forall|file: Seq<u8>| #[trigger]
                    have.shows(plain(size), file) ==> {
                        &&& opened(plain(size), file) is Ok
                        &&& d.size == (opened(plain(size), file)->Ok_0).0
                        &&& d.opens(
                            (opened(plain(size), file)->Ok_0).1,
                            plain(size),
                            file,
                        )
                    }
            },
            Err(Stop::Failed(e)) => forall|file: Seq<u8>| #[trigger]
                have.shows(plain(size), file) ==> opened(plain(size), file) == Err::<(u64, Blocks), Fault>(e@),
            Err(Stop::Need { offset, len }) => have.lacks(plain(size), offset, len),
        },
{
    let src: Source = Source::new(size);
    let head: Vec<u8> = match src.read_upto(have, 0, 512) {
        Ok(b) => b,
        Err(s) => {
            return Err(s);
        },
    };
    let head_footer: Option<Footer> = parse_footer(&head);
    let tail: Option<(Footer, u64)> = match tail_footer(&src, have) {
        Ok(t) => t,
        Err(s) => {
            return Err(s);
        },
    };
    let from_head: Option<Footer> = match head_footer {
        Some(f) => if f.checksum_ok && f.disk_type != FIXED {
            Some(f)
        } else {
            None
        },
        None => None,
    };
    let footer: Footer = match from_head {
        Some(f) => f,
        None => match tail {
            Some((f, _)) if f.checksum_ok => f,
            _ => {
                return Err(Stop::Failed(bad("the VHD footer is damaged (its checksum doesn't match)")));
            },
        },
    };
    assert(chosen(head_footer, tail) == Some(footer));
    if footer.disk_type == FIXED {
        let footer_len: u64 = match tail {
            Some((_, len)) => len,
            None => 0,
        };
        let data: u64 = src.size - footer_len;
        if footer.size > data {
            let mut s: String = "the VHD is cut short: it should hold ".to_owned();
            s.append(size_text(footer.size).as_str());
            s.append(" of disk data, but has ");
            s.append(size_text(data).as_str());
            return Err(Stop::Failed(bad(s.as_str())));
        }
        return Ok(VDisk::new(src, footer.size, Blocks::Whole(Some(footer.size))));
    }
    if footer.disk_type != DYNAMIC && footer.disk_type != DIFFERENCING {
        let mut s: String = "the VHD is damaged (unknown disk type ".to_owned();
        push_decimal(&mut s, footer.disk_type as u64);
        s.append(")");
        return Err(Stop::Failed(bad(s.as_str())));
    }
    let header: Vec<u8> = match src.read_vec(have, footer.data_offset, 1024) {
        Ok(b) => b,
        Err(Stop::Failed(_)) => {
            return Err(Stop::Failed(bad("the VHD is damaged (its dynamic disk header is missing)")));
        },
        Err(Stop::Need { offset, len }) => {
            return Err(Stop::Need { offset, len });
        },
    };
    match dynamic(&header, &footer) {
        Ok(l) => Ok(VDisk::new(src, footer.size, l)),
        Err(e) => Err(Stop::Failed(e)),
    }
}

// What the disk holds, by the format.

/// Byte `p` of a dynamic disk whose header is `header`: of the block that holds it, if the block's
/// own entry of the block table points to it and its sector was written. A block starts with a
/// bit for each sector, the most significant one of a byte first, in whole sectors.
pub open spec fn dynamic_byte(src: Layers, file: Seq<u8>, header: Seq<u8>, p: int) -> u8 {
    let table = be_value(header.subrange(16, 24));
    let entries = be_value(header.subrange(28, 32));
    let size = be_value(header.subrange(32, 36)) as int;
    let k = p / size;
    let entry = be_value(src.bytes(file, (table + 4 * k) as u64, 4));
    if k >= entries || entry == 0xffff_ffff {
        0
    } else {
        let start = entry * 512;
        let sector = p % size / 512;
        let map = ((size / 512 + 7) / 8 + 511) / 512 * 512;
        if src.seen(file, start + sector / 8) as nat / pow2((7 - sector % 8) as nat) % 2 == 1 {
            src.seen(file, start + map + p % size)
        } else {
            0
        }
    }
}

proof fn lemma_written(bitmap: Seq<u8>, s: int)
    requires
        0 <= s,
    ensures
        written(bitmap, s) == (bitmap[s / 8] as nat / pow2((7 - s % 8) as nat) % 2 == 1),
{
    let b = bitmap[s / 8];
    let n = (s % 8) as u8;
    let m = (7 - s % 8) as u8;
    assert((b & (0x80u8 >> n) != 0) == ((b >> m) % 2 == 1)) by (bit_vector)
        requires
            n <= 7,
            m == 7 - n,
    ;
    vstd::bits::lemma_u8_shr_is_div(b, m);
}

proof fn lemma_alike(bitmap: Seq<u8>, s: int, sectors: int, set: bool)
    requires
        0 <= s <= sectors,
    ensures
        s + alike_from(bitmap, s, sectors, set) <= sectors,
        forall|t: int| s <= t < s + alike_from(bitmap, s, sectors, set) ==> #[trigger] written(bitmap, t) == set,
        s < sectors && written(bitmap, s) == set ==> alike_from(bitmap, s, sectors, set) > 0,
    decreases sectors - s,
{
    if s < sectors && written(bitmap, s) == set {
        lemma_alike(bitmap, s + 1, sectors, set);
    }
}

spec fn stands(l: Blocks, d: Dynamic, src: Layers, file: Seq<u8>, header: Seq<u8>, pos: int) -> bool {
    &&& l is Dynamic
    &&& ({
        let m = l->Dynamic_0;
        &&& m == (Dynamic { next: m.next, pending: m.pending, ..d })
        &&& match m.pending {
            None => pos == m.next * d.block_size,
            Some(q) => {
                let entry = be_value(src.bytes(file, (d.bat.offset + 4 * (m.next - 1)) as u64, 4));
                &&& 1 <= m.next <= be_value(header.subrange(28, 32))
                &&& entry != 0xffff_ffff
                &&& q.start == entry * 512
                &&& q.sector < d.block_size / 512
                &&& pos == (m.next - 1) * d.block_size + q.sector * 512
            },
        }
    })
}

spec fn sound(header: Seq<u8>, f: Footer, d: Dynamic) -> bool {
    &&& header.len() == 1024
    &&& dynamic_of(header, f) == Ok::<Blocks, Fault>(Blocks::Dynamic(d))
}

spec fn sized(header: Seq<u8>, f: Footer, d: Dynamic) -> bool {
    &&& d.block_size == be_value(header.subrange(32, 36))
    &&& d.bat.offset == be_value(header.subrange(16, 24))
    &&& d.bat.entry_size == 4
    &&& 512 <= d.block_size <= 0x8000_0000
    &&& d.block_size % 512 == 0
    &&& d.bitmap_size == ((d.block_size as int / 512 + 7) / 8 + 511) / 512 * 512
    &&& d.block_size / 512 <= 8 * d.bitmap_size
    &&& 0 <= d.blocks <= f.size
    &&& f.size <= d.blocks * d.block_size
    &&& d.bat.entries == (if be_value(header.subrange(28, 32)) <= d.blocks {
        be_value(header.subrange(28, 32))
    } else {
        d.blocks as nat
    })
}

proof fn lemma_sound(header: Seq<u8>, f: Footer, d: Dynamic)
    requires
        sound(header, f, d),
    ensures
        sized(header, f, d),
{
    law_fields_are_numbers(header, 16);
    law_fields_are_numbers(header, 28);
    law_fields_are_numbers(header, 32);
    let b = d.block_size as int;
    lemma_power(d.block_size as nat);
    lemma_bitmap(d.block_size);
    let n = (f.size + b - 1) / b;
    assert(0 <= n <= f.size && f.size <= n * b) by (nonlinear_arith)
        requires
            n == (f.size + b - 1) / b,
            b >= 512,
            f.size >= 0,
    ;
}

/// Place `within` of block `k`, whose block is at `start`.
proof fn lemma_byte(src: Layers, file: Seq<u8>, header: Seq<u8>, size: int, map: int, k: int, start: u64, within: int)
    requires
        size == be_value(header.subrange(32, 36)),
        512 <= size,
        size / 512 <= 8 * map,
        map == ((size / 512 + 7) / 8 + 511) / 512 * 512,
        0 <= k < be_value(header.subrange(28, 32)),
        be_value(src.bytes(file, (be_value(header.subrange(16, 24)) + 4 * k) as u64, 4)) != 0xffff_ffff,
        start == be_value(src.bytes(file, (be_value(header.subrange(16, 24)) + 4 * k) as u64, 4)) * 512,
        0 <= within < size,
        within / 512 < size / 512,
    ensures
        dynamic_byte(src, file, header, k * size + within) == (if written(
            src.bytes(file, start, map as nat),
            within / 512,
        ) {
            src.seen(file, start + map + within)
        } else {
            0
        }),
{
    let bitmap = src.bytes(file, start, map as nat);
    let t = within / 512;
    lemma_in_block(k, size, within);
    lemma_written(bitmap, t);
    assert(0 <= t / 8 < map);
    assert(bitmap[t / 8] == src.seen(file, start + t / 8));
}

/// Is sector `s` of block `k` the next one, and `start` where the block is?
spec fn comes(m: Dynamic, d: Dynamic, src: Layers, file: Seq<u8>, header: Seq<u8>, k: int, start: u64, s: u64) -> bool {
    let entry = be_value(src.bytes(file, (d.bat.offset + 4 * k) as u64, 4));
    &&& m == (Dynamic { next: m.next, pending: m.pending, ..d })
    &&& 0 <= k < be_value(header.subrange(28, 32))
    &&& m.next == k + 1
    &&& s < d.block_size / 512
    &&& entry != 0xffff_ffff
    &&& start == entry * 512
}

/// A byte of the next run of sectors of block `k`.
#[verifier::spinoff_prover]
#[verifier::rlimit(60)]
proof fn lemma_run_byte(
    m: Dynamic,
    d: Dynamic,
    src: Layers,
    file: Seq<u8>,
    header: Seq<u8>,
    f: Footer,
    k: int,
    start: u64,
    s: u64,
    pos: int,
    len: nat,
    j: int,
)
    requires
        sized(header, f, d),
        comes(m, d, src, file, header, k, start, s),
        pos == k * d.block_size + s * 512,
        m.run(src, file, start, s) is Ok,
        0 <= j < len <= (m.run(src, file, start, s)->Ok_0).0.len,
    ensures
        piece_bytes(src, file, pos as u64, (m.run(src, file, start, s)->Ok_0).0, len)[j] == dynamic_byte(
            src,
            file,
            header,
            pos + j,
        ),
{
    let size = d.block_size as int;
    let p = (m.run(src, file, start, s)->Ok_0).0;
    let bitmap = src.bytes(file, start, d.bitmap_size as nat);
    let sectors = size / 512;
    let set = written(bitmap, s as int);
    let n = alike_from(bitmap, s as int, sectors, set);
    lemma_alike(bitmap, s as int, sectors, set);
    assert(p.len == n * 512);
    let within = s * 512 + j;
    let t = s + j / 512;
    assert(within / 512 == t);
    assert(0 <= within < size);
    assert(written(bitmap, t) == set);
    lemma_byte(src, file, header, size, d.bitmap_size as int, k, start, within);
    let b = src.bytes(file, (d.bat.offset + 4 * k) as u64, 4);
    law_fields_are_numbers(b, 0);
    assert(b.subrange(0, 4) =~= b);
    assert(start <= 0xffff_ffff * 512);
    if set {
        assert(p.run == Run::Stored((start + d.bitmap_size + s * 512) as u64));
        assert(piece_bytes(src, file, pos as u64, p, len)[j] == src.seen(file, start + d.bitmap_size + s * 512 + j));
    } else {
        assert(p.run is Zeros);
    }
    assert(pos + j == k * size + within);
}

/// The next run of sectors of block `k`.
#[verifier::spinoff_prover]
#[verifier::rlimit(60)]
proof fn lemma_run(
    m: Dynamic,
    d: Dynamic,
    src: Layers,
    file: Seq<u8>,
    header: Seq<u8>,
    f: Footer,
    k: int,
    start: u64,
    s: u64,
    pos: int,
)
    requires
        sized(header, f, d),
        comes(m, d, src, file, header, k, start, s),
        pos == k * d.block_size + s * 512,
        0 <= pos < f.size,
    ensures
        m.run(src, file, start, s) matches Ok((p, next)) ==> {
            &&& p.len > 0
            &&& !(p.run is Packed)
            &&& stands(Blocks::Dynamic(next), d, src, file, header, pos + p.len)
        },
{
    let size = d.block_size as int;
    if let Ok((p, next)) = m.run(src, file, start, s) {
        let bitmap = src.bytes(file, start, d.bitmap_size as nat);
        let sectors = size / 512;
        let set = written(bitmap, s as int);
        let n = alike_from(bitmap, s as int, sectors, set);
        lemma_alike(bitmap, s as int, sectors, set);
        assert(p.len == n * 512);
        assert(next == Dynamic { next: m.next, pending: next.pending, ..d });
        if s + n >= sectors {
            assert((k + 1) * size == k * size + size) by (nonlinear_arith);
            assert(pos + p.len == next.next * size);
        } else {
            assert(pos + p.len == k * size + (s + n) * 512);
        }
    }
}

#[verifier::spinoff_prover]
#[verifier::rlimit(60)]
proof fn lemma_leads(l: Blocks, d: Dynamic, src: Layers, file: Seq<u8>, header: Seq<u8>, f: Footer, pos: int)
    requires
        sound(header, f, d),
        stands(l, d, src, file, header, pos),
        0 <= pos < f.size,
    ensures
        leads(
            l,
            src,
            file,
            f.size,
            pos,
            |x: Blocks, at: int| stands(x, d, src, file, header, at),
            |p: int| dynamic_byte(src, file, header, p),
        ),
{
    lemma_sound(header, f, d);
    let byte = |p: int| dynamic_byte(src, file, header, p);
    let m = l->Dynamic_0;
    let size = d.block_size as int;
    match m.pending {
        Some(q) => {
            lemma_run(m, d, src, file, header, f, m.next - 1, q.start, q.sector, pos);
            if let Ok((p, next)) = m.run(src, file, q.start, q.sector) {
                let len = least(p.len as int, f.size - pos) as nat;
                assert forall|j: int| 0 <= j < len implies #[trigger] piece_bytes(src, file, pos as u64, p, len)[j]
                    == byte(pos + j) by {
                    lemma_run_byte(m, d, src, file, header, f, m.next - 1, q.start, q.sector, pos, len, j);
                }
            }
        },
        None => {
            let k = m.next as int;
            assert(k < d.blocks) by (nonlinear_arith)
                requires
                    k * size < f.size,
                    f.size <= d.blocks * size,
                    size > 0,
            ;
            law_entries_are_at_their_places(m.bat, src, file, m.next);
            if let Ok(Some((p, next))) = m.block(src, file) {
                let entries = be_value(header.subrange(28, 32));
                let b = src.bytes(file, (d.bat.offset + 4 * k) as u64, 4);
                law_fields_are_numbers(b, 0);
                assert(b.subrange(0, 4) =~= b);
                let entry = be32_at(b, 0);
                if k < entries && entry != 0xffff_ffff {
                    let after = Dynamic { next: (m.next + 1) as u64, ..m };
                    let start = (entry * 512) as u64;
                    lemma_run(after, d, src, file, header, f, k, start, 0, pos);
                    let len = least(p.len as int, f.size - pos) as nat;
                    assert forall|j: int| 0 <= j < len implies #[trigger] piece_bytes(src, file, pos as u64, p, len)[j]
                        == byte(pos + j) by {
                        lemma_run_byte(after, d, src, file, header, f, k, start, 0, pos, len, j);
                    }
                } else {
                    assert((k + 1) * size == k * size + size) by (nonlinear_arith);
                    let len = least(p.len as int, f.size - pos) as nat;
                    assert forall|j: int| 0 <= j < len implies #[trigger] piece_bytes(src, file, pos as u64, p, len)[j]
                        == byte(pos + j) by {
                        lemma_in_block(k, size, j);
                    }
                }
            }
        },
    }
}

/// A dynamic VHD, read to its end, is as the format says.
pub proof fn law_dynamic_disk_is_as_the_format_says(
    disks: Seq<VDisk<Blocks>>,
    reads: Seq<Seq<u8>>,
    file: Seq<u8>,
    src: Layers,
    header: Seq<u8>,
    f: Footer,
    d: Dynamic,
)
    requires
        runs(disks, reads, file),
        header.len() == 1024,
        dynamic_of(header, f) == Ok::<Blocks, Fault>(Blocks::Dynamic(d)),
        disks[0].src@ == src,
        disks[0].size == f.size,
        disks[0].opens(Blocks::Dynamic(d), src, file),
    ensures
        given(reads).len() == f.size,
        forall|p: int| 0 <= p < f.size ==> #[trigger] given(reads)[p] == dynamic_byte(src, file, header, p),
{
    let good = |x: Blocks, at: int| stands(x, d, src, file, header, at);
    let byte = |p: int| dynamic_byte(src, file, header, p);
    assert(0 * d.block_size == 0);
    assert(good(Blocks::Dynamic(d), 0));
    assert forall|m: Blocks, pos: int| #[trigger] good(m, pos) && 0 <= pos < disks[0].size implies leads(
        m,
        disks[0].src@,
        file,
        disks[0].size,
        pos,
        good,
        byte,
    ) by {
        lemma_leads(m, d, src, file, header, f, pos);
    }
    law_disk_holds(disks, reads, file, Blocks::Dynamic(d), good, byte);
    assert forall|p: int| 0 <= p < f.size implies #[trigger] given(reads)[p] == dynamic_byte(src, file, header, p) by {
        assert(given(reads)[p] == byte(p));
    }
}

/// A fixed VHD, read to its end, is the start of the file.
pub proof fn law_fixed_disk_is_the_file(
    disks: Seq<VDisk<Blocks>>,
    reads: Seq<Seq<u8>>,
    file: Seq<u8>,
    src: Layers,
    size: u64,
)
    requires
        runs(disks, reads, file),
        opened(src, file) matches Ok((n, l)) && n == size && l is Whole,
        disks[0].src@ == src,
        disks[0].size == size,
        disks[0].opens((opened(src, file)->Ok_0).1, src, file),
    ensures
        given(reads).len() == size,
        forall|p: int| 0 <= p < size ==> #[trigger] given(reads)[p] == src.seen(file, p),
{
    let l = (opened(src, file)->Ok_0).1;
    let good = |x: Blocks, at: int| at == 0 && x == l;
    let byte = |p: int| src.seen(file, p);
    assert(good(l, 0));
    assert forall|m: Blocks, pos: int| #[trigger] good(m, pos) && 0 <= pos < disks[0].size implies leads(
        m,
        disks[0].src@,
        file,
        disks[0].size,
        pos,
        good,
        byte,
    ) by {
        let p = Piece { len: size, run: Run::Stored(0) };
        assert forall|j: int| 0 <= j < size implies #[trigger] piece_bytes(src, file, 0, p, size as nat)[j] == byte(
            0 + j,
        ) by {}
    }
    law_disk_holds(disks, reads, file, l, good, byte);
    assert forall|p: int| 0 <= p < size implies #[trigger] given(reads)[p] == src.seen(file, p) by {
        assert(given(reads)[p] == byte(p));
    }
}

/// Where a footer says what: the numbers in it, the high byte first, of which the disk's size is
/// one unless the maker is known to go by the geometry.
pub proof fn law_footers_are_read(b: Seq<u8>)
    requires
        b.len() == 512,
    ensures
        footer_in(b) matches Some(f) ==> {
            &&& b[0] == 0x63 && b[1] == 0x6f && b[2] == 0x6e && b[3] == 0x65
            &&& b[4] == 0x63 && b[5] == 0x74 && b[6] == 0x69 && b[7] == 0x78
            &&& f.data_offset == be_value(b.subrange(16, 24))
            &&& f.disk_type == be_value(b.subrange(60, 64))
            &&& b[28] != 0x76 && b[28] != 0x71 ==> f.size == be_value(b.subrange(48, 56))
        },
{
    law_fields_are_numbers(b, 16);
    law_fields_are_numbers(b, 48);
    law_fields_are_numbers(b, 60);
    let start = b.subrange(0, 8);
    assert(start[0] == b[0] && start[1] == b[1] && start[2] == b[2] && start[3] == b[3]);
    assert(start[4] == b[4] && start[5] == b[5] && start[6] == b[6] && start[7] == b[7]);
    assert(b.subrange(28, 32)[0] == b[28]);
    assert(VPC@[0] == 0x76 && QEMU@[0] == 0x71);
}

} // verus!
