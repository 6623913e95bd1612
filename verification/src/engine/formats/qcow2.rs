//! QCOW2 (QEMU), versions 2 and 3: an L1 table of L2 tables of cluster entries. Clusters are
//! stored as is, compressed (deflate, or zstd when the header says so), marked as zeros, or
//! not allocated (zeros). Extended L2 entries (32 subclusters per cluster) are supported.
//! The active L1 table is read; internal snapshots are ignored. Backing files, encryption
//! and external data files are not supported.

use vstd::prelude::*;
use vstd::string::*;
use vstd::arithmetic::power2::pow2;
use crate::engine::formats::codec::{decoded, Codec};
use crate::engine::formats::source::{
    bad, be32, be32_at, be64, be64_at, be_value, bytes_at, has_bytes, holds, law_fields_are_numbers, plain, size_text,
    size_text_of, unsupported, Layers, Loaded, Source, Stop,
};
use crate::engine::formats::vdisk::{
    block_of, given, law_disk_holds, leads, least, piece_bytes, runs, Layout, Packed, Piece, Run,
    Table, VDisk, WINDOW,
};
use crate::engine::formats::Detected;
use crate::engine::ImageFormat;
use crate::error::{bad_fault, unsupported_fault, Error, Fault};
use crate::text::{decimal, from_utf8_lossy, hex, lossy, push_decimal, push_hex};

verus! {

/// How a QCOW2 file starts: "QFI" and 0xfb.
pub const MAGIC: [u8; 4] = [0x51, 0x46, 0x49, 0xfb];

pub const EXTERNAL_DATA: u64 = 4;

pub const COMPRESSION_TYPE: u64 = 8;

pub const EXTENDED_L2: u64 = 16;

/// The incompatible features that are known: dirty, corrupt, compression type, extended L2.
pub const KNOWN: u64 = 27;

/// Bits 9 to 55 of an entry: a host offset.
pub const OFFSET_MASK: u64 = 0x00ff_ffff_ffff_fe00;

pub const COMPRESSED: u64 = 0x4000_0000_0000_0000;

#[derive(Clone, Copy, Debug, PartialEq, Eq, Structural)]
pub struct Header {
    pub version: u32,
    pub size: u64,
    pub cluster_bits: u32,
    pub l1_offset: u64,
    pub l1_size: u64,
    pub extended_l2: bool,
    pub zstd: bool,
}

impl Header {
    /// The size of a cluster.
    pub open spec fn cluster(self) -> u64 {
        1u64 << self.cluster_bits
    }

    /// The size of an L2 entry.
    pub open spec fn entry_size(self) -> int {
        if self.extended_l2 {
            16
        } else {
            8
        }
    }

    /// Is this a header that the checks let through?
    pub open spec fn wf(self) -> bool {
        &&& 9 <= self.cluster_bits <= 21
        &&& self.extended_l2 ==> self.cluster_bits >= 14
        &&& self.size <= 0x100_0000_0000_0000
    }
}

/// A header extension's data: of the first one of kind `wanted` from `at` on.
pub open spec fn extension_of(b: Seq<u8>, at: int, wanted: u32) -> Option<Seq<u8>>
    decreases b.len() + 8 - at,
{
    if at < 0 || at + 8 > b.len() {
        None
    } else {
        let kind = be32_at(b, at);
        let len = be32_at(b, at + 4) as int;
        if kind == 0 || at + 8 + len > b.len() {
            None
        } else if kind == wanted {
            Some(b.subrange(at + 8, at + 8 + len))
        } else {
            extension_of(b, at + 8 + (len + 7) / 8 * 8, wanted)
        }
    }
}

/// A header extension's data, from the first cluster.
pub fn extension(b: &[u8], from: usize, wanted: u32) -> (r: Option<Vec<u8>>)
    requires
        b@.len() <= 4096,
    ensures
        match r {
            Some(v) => extension_of(b@, from as int, wanted) == Some(v@),
            None => extension_of(b@, from as int, wanted) is None,
        },
{
    let mut at: usize = from;
    while at <= b.len() && b.len() - at >= 8
        invariant
            b@.len() <= 4096,
            extension_of(b@, from as int, wanted) == extension_of(b@, at as int, wanted),
        decreases b.len() + 8 - at,
    {
        let kind: u32 = be32(b, at);
        let len: usize = be32(b, at + 4) as usize;
        if kind == 0 || len > b.len() - at - 8 {
            return None;
        }
        if kind == wanted {
            return Some(bytes_at(b, at + 8, len));
        }
        at = at + 8 + (len + 7) / 8 * 8;
    }
    None
}

/// The name of the image that an overlay stands on, as far as it can be read.
pub open spec fn backing_name(src: Layers, file: Seq<u8>, offset: u64, len: u32) -> Seq<char> {
    match src.read_upto(
        file,
        offset,
        if len <= 1023 {
            len as nat
        } else {
            1023
        },
    ) {
        Ok(n) => lossy(n),
        Err(_) => Seq::empty(),
    }
}

/// A name in round brackets after a space; nothing for no name.
pub open spec fn in_brackets(name: Seq<char>) -> Seq<char> {
    if name.len() == 0 {
        Seq::empty()
    } else {
        " ("@ + name + ")"@
    }
}

pub open spec fn overlay_fault(name: Seq<char>) -> Fault {
    unsupported_fault(
        "this QCOW2 image is an overlay: it only holds the changes made on top of another image"@ + in_brackets(name)
            + ", which DD-GUI doesn't support. Make a whole image first: `qemu-img convert -O qcow2 overlay.qcow2 whole.qcow2`."@,
    )
}

pub open spec fn external_fault(name: Option<Seq<char>>) -> Fault {
    unsupported_fault(
        "this QCOW2 image keeps its data in a separate file"@ + (match name {
            Some(n) => " ("@ + n + ")"@,
            None => Seq::empty(),
        })
            + ", which DD-GUI doesn't support. Convert it first: `qemu-img convert -O qcow2 in.qcow2 out.qcow2`."@,
    )
}

/// The fields that only version 3 has: the incompatible features, the type of compression
/// and the length of the header.
pub open spec fn extras(b: Seq<u8>) -> (u64, u8, u32) {
    if be32_at(b, 4) == 3 {
        let len = be32_at(b, 100);
        (
            be64_at(b, 72),
            if len > 104 && b.len() > 104 {
                b[104]
            } else {
                0
            },
            len,
        )
    } else {
        (0, 0, 72)
    }
}

/// What the features say: are the L2 entries extended, and is the compression zstd?
pub open spec fn features_of(b: Seq<u8>) -> Result<(bool, bool), Fault> {
    let (incompatible, compression, header_len) = extras(b);
    let unknown = incompatible & !KNOWN;
    if incompatible & EXTERNAL_DATA != 0 {
        Err(
            external_fault(
                match extension_of(b, header_len as int, 0x4441_5441) {
                    Some(n) => Some(lossy(n)),
                    None => None,
                },
            ),
        )
    } else if unknown != 0 {
        Err(
            unsupported_fault(
                "this QCOW2 image uses features DD-GUI doesn't know (incompatible feature bits 0x"@ + hex(
                    unknown as nat,
                ) + ")"@,
            ),
        )
    } else if incompatible & COMPRESSION_TYPE != 0 && compression > 1 {
        Err(
            unsupported_fault(
                "this QCOW2 image uses compression type "@ + decimal(compression as nat)
                    + ", which DD-GUI doesn't know"@,
            ),
        )
    } else {
        Ok((incompatible & EXTENDED_L2 != 0, incompatible & COMPRESSION_TYPE != 0 && compression == 1))
    }
}

/// How many L1 entries a disk needs.
pub open spec fn l1_needed(size: u64, cluster: u64, entry_size: int) -> int {
    let span = cluster * (cluster as int / entry_size);
    (size + span - 1) / span
}

/// The geometry: the sizes that a header gives, once its features are known.
pub open spec fn geometry_of(b: Seq<u8>, extended_l2: bool, zstd: bool) -> Result<Header, Fault> {
    let h = Header {
        version: be32_at(b, 4),
        size: be64_at(b, 24),
        cluster_bits: be32_at(b, 20),
        l1_offset: be64_at(b, 40),
        l1_size: be32_at(b, 36) as u64,
        extended_l2,
        zstd,
    };
    if !(9 <= h.cluster_bits <= 21) || (extended_l2 && h.cluster_bits < 14) {
        Err(bad_fault("the QCOW2 header is damaged (cluster size 2^"@ + decimal(h.cluster_bits as nat) + ")"@))
    } else if h.size > 0x100_0000_0000_0000 {
        Err(bad_fault("the QCOW2 header is damaged (a disk of "@ + size_text_of(h.size as nat) + ")"@))
    } else if h.l1_size < l1_needed(h.size, h.cluster(), h.entry_size()) || h.l1_size > 0x40_0000 {
        Err(bad_fault("the QCOW2 image is damaged (its L1 table doesn't fit the disk)"@))
    } else if h.l1_offset as int % h.cluster() as int != 0 {
        Err(bad_fault("the QCOW2 image is damaged (its L1 table is misplaced)"@))
    } else {
        Ok(h)
    }
}

/// What the start of the file says.
pub open spec fn header_in(src: Layers, file: Seq<u8>, b: Seq<u8>) -> Result<Header, Fault> {
    let version = be32_at(b, 4);
    if b.len() < 72 || !holds(b, 0, MAGIC@) {
        Err(bad_fault("the QCOW2 header is damaged"@))
    } else if version == 1 {
        Err(
            unsupported_fault(
                "this is a QCOW version 1 image, which DD-GUI doesn't support. Convert it first: `qemu-img convert -O qcow2 old.qcow new.qcow2`."@,
            ),
        )
    } else if version != 2 && version != 3 {
        Err(
            unsupported_fault(
                "this QCOW2 image has version "@ + decimal(version as nat) + ", which DD-GUI doesn't know"@,
            ),
        )
    } else if be64_at(b, 8) != 0 {
        Err(overlay_fault(backing_name(src, file, be64_at(b, 8), be32_at(b, 16))))
    } else if be32_at(b, 32) != 0 {
        Err(
            unsupported_fault(
                "this QCOW2 image is encrypted, which DD-GUI doesn't support. Decrypt it first with `qemu-img convert`."@,
            ),
        )
    } else if version == 3 && b.len() < 104 {
        Err(bad_fault("the QCOW2 header is damaged"@))
    } else {
        match features_of(b) {
            Err(f) => Err(f),
            Ok((extended_l2, zstd)) => geometry_of(b, extended_l2, zstd),
        }
    }
}

/// The header.
#[verifier::opaque]
pub open spec fn header_of(src: Layers, file: Seq<u8>) -> Result<Header, Fault> {
    match src.read_upto(file, 0, 4096) {
        Err(f) => Err(f),
        Ok(b) => header_in(src, file, b),
    }
}

proof fn lemma_cluster(bits: u32)
    requires
        9 <= bits <= 21,
    ensures
        512 <= (1u64 << bits) <= 0x20_0000,
        bits >= 14 ==> (1u64 << bits) >= 0x4000,
        (1u64 << bits) % 512 == 0,
{
    assert(9 <= bits <= 21 ==> 512 <= (1u64 << bits) <= 0x20_0000 && (bits >= 14 ==> (1u64 << bits) >= 0x4000) && (
    1u64 << bits) % 512 == 0) by (bit_vector);
}

fn features(b: &[u8]) -> (r: Result<(bool, bool), Error>)
    requires
        104 <= b@.len() <= 4096 || be32_at(b@, 4) != 3,
        b@.len() <= 4096,
    ensures
        crate::error::gives(r, features_of(b@)),
{
    let mut incompatible: u64 = 0;
    let mut compression: u8 = 0;
    let mut header_len: u32 = 72;
    if be32(b, 4) == 3 {
        incompatible = be64(b, 72);
        header_len = be32(b, 100);
        if header_len > 104 && b.len() > 104 {
            compression = b[104];
        }
    }
    if incompatible & EXTERNAL_DATA != 0 {
        let mut s: String = "this QCOW2 image keeps its data in a separate file".to_owned();
        if let Some(n) = extension(b, header_len as usize, 0x4441_5441) {
            s.append(" (");
            s.append(from_utf8_lossy(&n).as_str());
            s.append(")");
        }
        s.append(
            ", which DD-GUI doesn't support. Convert it first: `qemu-img convert -O qcow2 in.qcow2 out.qcow2`.",
        );
        let e: Error = unsupported(s.as_str());
        proof {
            let start = "this QCOW2 image keeps its data in a separate file"@;
            let end = ", which DD-GUI doesn't support. Convert it first: `qemu-img convert -O qcow2 in.qcow2 out.qcow2`."@;
            match extension_of(b@, header_len as int, 0x4441_5441) {
                Some(n) => {
                    assert(s@ == start + (" ("@ + lossy(n) + ")"@) + end);
                },
                None => {
                    assert(s@ == start + Seq::<char>::empty() + end);
                },
            }
        }
        return Err(e);
    }
    let unknown: u64 = incompatible & !KNOWN;
    if unknown != 0 {
        let mut s: String = "this QCOW2 image uses features DD-GUI doesn't know (incompatible feature bits 0x".to_owned();
        push_hex(&mut s, unknown);
        s.append(")");
        return Err(unsupported(s.as_str()));
    }
    let typed: bool = incompatible & COMPRESSION_TYPE != 0;
    if typed && compression > 1 {
        let mut s: String = "this QCOW2 image uses compression type ".to_owned();
        push_decimal(&mut s, compression as u64);
        s.append(", which DD-GUI doesn't know");
        return Err(unsupported(s.as_str()));
    }
    Ok((incompatible & EXTENDED_L2 != 0, typed && compression == 1))
}

fn geometry(b: &[u8], extended_l2: bool, zstd: bool) -> (r: Result<Header, Error>)
    ensures
        crate::error::gives(r, geometry_of(b@, extended_l2, zstd)),
        r matches Ok(h) ==> h.wf(),
{
    let version: u32 = be32(b, 4);
    let cluster_bits: u32 = be32(b, 20);
    let size: u64 = be64(b, 24);
    let l1_size: u64 = be32(b, 36) as u64;
    let l1_offset: u64 = be64(b, 40);
    if cluster_bits < 9 || cluster_bits > 21 || (extended_l2 && cluster_bits < 14) {
        let mut s: String = "the QCOW2 header is damaged (cluster size 2^".to_owned();
        push_decimal(&mut s, cluster_bits as u64);
        s.append(")");
        return Err(bad(s.as_str()));
    }
    if size > 0x100_0000_0000_0000 {
        let mut s: String = "the QCOW2 header is damaged (a disk of ".to_owned();
        s.append(size_text(size).as_str());
        s.append(")");
        return Err(bad(s.as_str()));
    }
    proof {
        lemma_cluster(cluster_bits);
    }
    let cluster: u64 = 1u64 << cluster_bits;
    let per_l2: u64 = cluster / (if extended_l2 {
        16
    } else {
        8
    });
    proof {
        assert(0 < cluster * per_l2 <= 0x20_0000 * 0x20_0000) by (nonlinear_arith)
            requires
                512 <= cluster <= 0x20_0000,
                0 < per_l2 <= 0x20_0000,
        ;
    }
    let span: u64 = cluster * per_l2;
    let needed: u64 = (size + span - 1) / span;
    if l1_size < needed || l1_size > 0x40_0000 {
        return Err(bad("the QCOW2 image is damaged (its L1 table doesn't fit the disk)"));
    }
    if l1_offset % cluster != 0 {
        return Err(bad("the QCOW2 image is damaged (its L1 table is misplaced)"));
    }
    Ok(Header { version, size, cluster_bits, l1_offset, l1_size, extended_l2, zstd })
}

/// The header.
pub fn header(src: &Source, have: &Loaded) -> (r: Result<Header, Stop>)
    requires
        src@.wf(),
    ensures
        match r {
            Ok(h) => h.wf() && forall|file: Seq<u8>| #[trigger]
                have.shows(src@, file) ==> header_of(src@, file) == Ok::<Header, Fault>(h),
            Err(Stop::Failed(e)) => forall|file: Seq<u8>| #[trigger]
                have.shows(src@, file) ==> header_of(src@, file) == Err::<Header, Fault>(e@),
            Err(Stop::Need { offset, len }) => have.lacks(src@, offset, len),
        },
{
    reveal(header_of);
    let b: Vec<u8> = match src.read_upto(have, 0, 4096) {
        Ok(b) => b,
        Err(s) => {
            return Err(s);
        },
    };
    if b.len() < 72 || !has_bytes(&b, 0, &MAGIC) {
        return Err(Stop::Failed(bad("the QCOW2 header is damaged")));
    }
    let version: u32 = be32(&b, 4);
    if version == 1 {
        return Err(
            Stop::Failed(
                unsupported(
                    "this is a QCOW version 1 image, which DD-GUI doesn't support. Convert it first: `qemu-img convert -O qcow2 old.qcow new.qcow2`.",
                ),
            ),
        );
    }
    if version != 2 && version != 3 {
        let mut s: String = "this QCOW2 image has version ".to_owned();
        push_decimal(&mut s, version as u64);
        s.append(", which DD-GUI doesn't know");
        return Err(Stop::Failed(unsupported(s.as_str())));
    }
    let backing_offset: u64 = be64(&b, 8);
    let backing_len: u32 = be32(&b, 16);
    if backing_offset != 0 {
        let len: usize = if backing_len <= 1023 {
            backing_len as usize
        } else {
            1023
        };
        let name: String = match src.read_upto(have, backing_offset, len) {
            Ok(n) => from_utf8_lossy(&n),
            Err(Stop::Failed(_)) => String::new(),
            Err(Stop::Need { offset, len }) => {
                return Err(Stop::Need { offset, len });
            },
        };
        return Err(Stop::Failed(overlay(name.as_str())));
    }
    if be32(&b, 32) != 0 {
        return Err(
            Stop::Failed(
                unsupported(
                    "this QCOW2 image is encrypted, which DD-GUI doesn't support. Decrypt it first with `qemu-img convert`.",
                ),
            ),
        );
    }
    if version == 3 && b.len() < 104 {
        return Err(Stop::Failed(bad("the QCOW2 header is damaged")));
    }
    match features(&b) {
        Err(e) => Err(Stop::Failed(e)),
        Ok((extended_l2, zstd)) => match geometry(&b, extended_l2, zstd) {
            Ok(h) => Ok(h),
            Err(e) => Err(Stop::Failed(e)),
        },
    }
}

fn overlay(name: &str) -> (e: Error)
    ensures
        e@ == overlay_fault(name@),
{
    let mut s: String = "this QCOW2 image is an overlay: it only holds the changes made on top of another image".to_owned();
    if !name.is_empty() {
        s.append(" (");
        s.append(name);
        s.append(")");
    }
    s.append(
        ", which DD-GUI doesn't support. Make a whole image first: `qemu-img convert -O qcow2 overlay.qcow2 whole.qcow2`.",
    );
    proof {
        let start = "this QCOW2 image is an overlay: it only holds the changes made on top of another image"@;
        let end = ", which DD-GUI doesn't support. Make a whole image first: `qemu-img convert -O qcow2 overlay.qcow2 whole.qcow2`."@;
        if name@.len() == 0 {
            assert(s@ == start + Seq::<char>::empty() + end);
        } else {
            assert(s@ == start + (" ("@ + name@ + ")"@) + end);
        }
    }
    unsupported(s.as_str())
}

/// Is this a QCOW2 image, by the start of the file? With the disk's size, if the header is
/// sound.
pub fn detect(src: &Source, have: &Loaded, head: &[u8]) -> (r: Result<Option<Detected>, Stop>)
    requires
        src@.wf(),
    ensures
        match r {
            Ok(None) => !holds(head@, 0, MAGIC@),
            Ok(Some(d)) => {
                &&& holds(head@, 0, MAGIC@)
                &&& d.format == ImageFormat::Qcow2
                &&& forall|file: Seq<u8>| #[trigger]
                    have.shows(src@, file) ==> d.raw_size == (match header_of(src@, file) {
                        Ok(h) => Some(h.size),
                        Err(_) => None,
                    })
            },
            Err(Stop::Failed(_)) => false,
            Err(Stop::Need { offset, len }) => have.lacks(src@, offset, len),
        },
{
    if !has_bytes(head, 0, &MAGIC) {
        return Ok(None);
    }
    let raw_size: Option<u64> = match header(src, have) {
        Ok(h) => Some(h.size),
        Err(Stop::Failed(_)) => None,
        Err(Stop::Need { offset, len }) => {
            return Err(Stop::Need { offset, len });
        },
    };
    Ok(Some(Detected { format: ImageFormat::Qcow2, raw_size }))
}

/// A cluster of which the subclusters are being handed out.
#[derive(Clone, Copy, Debug, PartialEq, Eq, Structural)]
pub struct Subs {
    pub host: u64,
    pub bitmap: u64,
    /// The next one.
    pub next: u64,
}

/// The clusters of the disk, in order.
#[derive(Clone, Copy, Debug, PartialEq, Eq, Structural)]
pub struct Clusters {
    pub l1: Table,
    pub cluster: u64,
    pub l2_entries: u64,
    pub entry_size: usize,
    /// The next guest cluster.
    pub next: u64,
    pub clusters: u64,
    pub csize_shift: u32,
    pub csize_mask: u64,
    pub offset_mask: u64,
    pub codec: Codec,
    /// Version 3 without extended entries: bit 0 marks a cluster of zeros.
    pub zero_flag: bool,
    pub extended: bool,
    /// Subclusters not handed out yet.
    pub pending: Option<Subs>,
}

impl Clusters {
    /// The next subcluster. Allocated ones are stored; the others read as zeros (there is no
    /// backing file to read them from).
    pub open spec fn sub_step(self, s: Subs) -> (Piece, Self) {
        let size = (self.cluster / 32) as u64;
        let piece = if s.bitmap & (1u64 << s.next) != 0 {
            Piece { len: size, run: Run::Stored((s.host + s.next * size) as u64) }
        } else {
            Piece { len: size, run: Run::Zeros }
        };
        let pending = if s.next + 1 >= 32 {
            None
        } else {
            Some(Subs { next: (s.next + 1) as u64, ..s })
        };
        (piece, Clusters { pending, ..self })
    }

    /// What an L2 entry says of the next cluster.
    pub open spec fn entry_step(self, e: Seq<u8>) -> Result<(Piece, Self), Fault> {
        let entry = be64_at(e, 0);
        let after = Clusters { next: (self.next + 1) as u64, ..self };
        let host = entry & OFFSET_MASK;
        if entry & COMPRESSED != 0 {
            let offset = entry & self.offset_mask;
            let sectors = ((entry >> self.csize_shift) & self.csize_mask) + 1;
            Ok(
                (
                    Piece {
                        len: self.cluster,
                        run: Run::Packed(
                            Packed {
                                offset,
                                len: (sectors * 512 - (offset & 511)) as u32,
                                codec: self.codec,
                                size: self.cluster as u32,
                                short_ok: false,
                            },
                        ),
                    },
                    after,
                ),
            )
        } else if host as int % self.cluster as int != 0 {
            Err(
                bad_fault("the QCOW2 image is damaged (cluster "@ + decimal(self.next as nat) + " is misplaced)"@),
            )
        } else if self.extended {
            if host == 0 {
                Ok((Piece { len: self.cluster, run: Run::Zeros }, after))
            } else {
                Ok(after.sub_step(Subs { host, bitmap: be64_at(e, 8), next: 0 }))
            }
        } else if (self.zero_flag && entry & 1 != 0) || host == 0 {
            Ok((Piece { len: self.cluster, run: Run::Zeros }, after))
        } else {
            Ok((Piece { len: self.cluster, run: Run::Stored(host) }, after))
        }
    }

    /// What the L2 table at `l2_offset` says of the next cluster.
    pub open spec fn l2_step(self, src: Layers, file: Seq<u8>, l2_offset: u64) -> Result<(Piece, Self), Fault> {
        if l2_offset as int % self.cluster as int != 0 {
            Err(
                bad_fault(
                    "the QCOW2 image is damaged (L2 table "@ + decimal((self.next / self.l2_entries) as nat)
                        + " is misplaced)"@,
                ),
            )
        } else {
            match src.read(file, l2_offset, self.cluster as nat) {
                Err(f) => Err(f),
                Ok(l2) => {
                    let at = (self.next % self.l2_entries) * self.entry_size;
                    self.entry_step(l2.subrange(at, at + self.entry_size))
                },
            }
        }
    }
}

proof fn lemma_masks()
    ensures
        forall|a: u64, b: u64| #[trigger] (a & b) <= b,
{
    assert(forall|a: u64, b: u64| #[trigger] (a & b) <= b) by (bit_vector);
}

impl Clusters {
    fn sub_piece(&mut self, s: Subs) -> (p: Piece)
        requires
            old(self).wf(),
            s.next < 32,
            s.host <= OFFSET_MASK,
        ensures
            (p, *final(self)) == old(self).sub_step(s),
            final(self).wf(),
    {
        let size: u64 = self.cluster / 32;
        proof {
            assert(s.next * size <= 32 * 0x1_0000) by (nonlinear_arith)
                requires
                    s.next < 32,
                    0 <= size <= 0x1_0000,
            ;
        }
        let p: Piece = if s.bitmap & (1u64 << s.next) != 0 {
            Piece::stored(s.host + s.next * size, size)
        } else {
            Piece::zeros(size)
        };
        self.pending = if s.next + 1 >= 32 {
            None
        } else {
            Some(Subs { host: s.host, bitmap: s.bitmap, next: s.next + 1 })
        };
        p
    }

    fn entry_piece(&mut self, e: &[u8]) -> (r: Result<Piece, Error>)
        requires
            old(self).wf(),
            old(self).next < old(self).clusters,
            old(self).pending is None,
            e@.len() == old(self).entry_size,
        ensures
            match r {
                Ok(p) => old(self).entry_step(e@) == Ok::<(Piece, Self), Fault>((p, *final(self))) && final(self).wf(),
                Err(f) => old(self).entry_step(e@) == Err::<(Piece, Self), Fault>(f@),
            },
    {
        let entry: u64 = be64(e, 0);
        let guest: u64 = self.next;
        let cluster: u64 = self.cluster;
        proof {
            lemma_masks();
        }
        self.next = self.next + 1;
        if entry & COMPRESSED != 0 {
            let offset: u64 = entry & self.offset_mask;
            let sectors: u64 = ((entry >> self.csize_shift) & self.csize_mask) + 1;
            let len: u64 = sectors * 512 - (offset & 511);
            return Ok(
                Piece {
                    len: cluster,
                    run: Run::Packed(
                        Packed {
                            offset,
                            len: len as u32,
                            codec: self.codec,
                            size: cluster as u32,
                            short_ok: false,
                        },
                    ),
                },
            );
        }
        let host: u64 = entry & OFFSET_MASK;
        if host % cluster != 0 {
            let mut s: String = "the QCOW2 image is damaged (cluster ".to_owned();
            push_decimal(&mut s, guest);
            s.append(" is misplaced)");
            return Err(bad(s.as_str()));
        }
        if self.extended {
            if host == 0 {
                return Ok(Piece::zeros(cluster));
            }
            let bitmap: u64 = be64(e, 8);
            return Ok(self.sub_piece(Subs { host, bitmap, next: 0 }));
        }
        if (self.zero_flag && entry & 1 != 0) || host == 0 {
            return Ok(Piece::zeros(cluster));
        }
        Ok(Piece::stored(host, cluster))
    }
}

impl Layout for Clusters {
    open spec fn wf(self) -> bool {
        &&& self.l1.wf()
        &&& self.l1.entry_size == 8
        &&& 512 <= self.cluster <= 0x20_0000
        &&& self.entry_size == 8 || self.entry_size == 16
        &&& self.l2_entries == self.cluster / (self.entry_size as u64)
        &&& self.l2_entries * self.entry_size == self.cluster
        &&& self.clusters * self.cluster <= 0x200_0000_0000_0000
        &&& self.extended == (self.entry_size == 16)
        &&& self.csize_mask <= 0x1fff
        &&& 49 <= self.csize_shift <= 61
        &&& self.pending matches Some(s) ==> s.next < 32 && s.host <= OFFSET_MASK
    }

    open spec fn step(self, src: Layers, file: Seq<u8>) -> Result<Option<(Piece, Self)>, Fault> {
        match self.pending {
            Some(s) => Ok(Some(self.sub_step(s))),
            None => if self.next >= self.clusters {
                Ok(None)
            } else {
                match self.l1.entry(src, file, (self.next / self.l2_entries) as u64) {
                    Err(f) => Err(f),
                    Ok(e) => {
                        let l2_offset = match e {
                            Some(b) => be64_at(b, 0) & OFFSET_MASK,
                            None => 0,
                        };
                        if l2_offset == 0 {
                            // No L2 table: all of its clusters are unallocated.
                            let in_table = self.l2_entries - self.next % self.l2_entries;
                            let n = if in_table <= self.clusters - self.next {
                                in_table
                            } else {
                                self.clusters - self.next
                            };
                            Ok(
                                Some(
                                    (
                                        Piece { len: (n * self.cluster) as u64, run: Run::Zeros },
                                        Clusters { next: (self.next + n) as u64, ..self },
                                    ),
                                ),
                            )
                        } else {
                            match self.l2_step(src, file, l2_offset) {
                                Err(f) => Err(f),
                                Ok(r) => Ok(Some(r)),
                            }
                        }
                    },
                }
            },
        }
    }

    fn next(&mut self, src: &Source, have: &Loaded) -> (r: Result<Option<Piece>, Stop>) {
        if let Some(s) = self.pending {
            return Ok(Some(self.sub_piece(s)));
        }
        if self.next >= self.clusters {
            return Ok(None);
        }
        proof {
            assert(self.l2_entries >= 32) by (nonlinear_arith)
                requires
                    self.l2_entries * self.entry_size == self.cluster,
                    512 <= self.cluster,
                    self.entry_size <= 16,
            ;
            lemma_masks();
        }
        let l1_index: u64 = self.next / self.l2_entries;
        let l2_index: u64 = self.next % self.l2_entries;
        let l2_offset: u64 = match self.l1.get(src, have, l1_index) {
            Ok(Some(e)) => be64(&e, 0) & OFFSET_MASK,
            Ok(None) => 0,
            Err(s) => {
                return Err(s);
            },
        };
        if l2_offset == 0 {
            let in_table: u64 = self.l2_entries - l2_index;
            let n: u64 = if in_table <= self.clusters - self.next {
                in_table
            } else {
                self.clusters - self.next
            };
            proof {
                assert(n * self.cluster <= self.clusters * self.cluster) by (nonlinear_arith)
                    requires
                        0 <= n <= self.clusters,
                        self.cluster >= 0,
                ;
            }
            self.next = self.next + n;
            return Ok(Some(Piece::zeros(n * self.cluster)));
        }
        if l2_offset % self.cluster != 0 {
            let mut s: String = "the QCOW2 image is damaged (L2 table ".to_owned();
            push_decimal(&mut s, l1_index);
            s.append(" is misplaced)");
            return Err(Stop::Failed(bad(s.as_str())));
        }
        // All of the table has to be in the file, though only an entry of it is looked at.
        match src.in_file(l2_offset, self.cluster as usize) {
            Ok(_) => {},
            Err(e) => {
                return Err(Stop::Failed(e));
            },
        }
        proof {
            assert(l2_index * self.entry_size + self.entry_size <= self.cluster) by (nonlinear_arith)
                requires
                    l2_index + 1 <= self.l2_entries,
                    self.l2_entries * self.entry_size == self.cluster,
            ;
        }
        let at: u64 = l2_index * self.entry_size as u64;
        let e: Vec<u8> = match src.read_vec(have, l2_offset + at, self.entry_size) {
            Ok(e) => e,
            Err(Stop::Failed(e)) => {
                return Err(Stop::Failed(e));
            },
            Err(Stop::Need { offset, len }) => {
                let n: usize = match src.in_file(l2_offset, self.cluster as usize) {
                    Ok(n) => n,
                    Err(_) => 0,
                };
                if n > 0 && have.get(l2_offset, n).is_none() {
                    return Err(Stop::Need { offset: l2_offset, len: n });
                }
                return Err(Stop::Need { offset, len });
            },
        };
        proof {
            assert forall|file: Seq<u8>| #[trigger] have.shows(src@, file) implies e@ == src@.bytes(
                file,
                l2_offset,
                self.cluster as nat,
            ).subrange(at as int, at + self.entry_size) by {
                assert(src@.read(file, (l2_offset + at) as u64, self.entry_size as nat) == Ok::<Seq<u8>, Fault>(e@));
                assert forall|i: int| 0 <= i < self.entry_size implies e@[i] == src@.bytes(
                    file,
                    l2_offset,
                    self.cluster as nat,
                )[at + i] by {
                    assert(e@[i] == src@.seen(file, (l2_offset + at) + i));
                }
            }
        }
        match self.entry_piece(&e) {
            Ok(p) => Ok(Some(p)),
            Err(e) => Err(Stop::Failed(e)),
        }
    }
}

/// The map of the disk that a header describes.
pub open spec fn clusters_for(h: Header) -> Clusters {
    let shift = (62 - (h.cluster_bits - 8)) as u32;
    Clusters {
        l1: Table { offset: h.l1_offset, entries: h.l1_size, entry_size: 8 },
        cluster: h.cluster(),
        l2_entries: (h.cluster() as int / h.entry_size()) as u64,
        entry_size: h.entry_size() as usize,
        next: 0,
        clusters: ((h.size + h.cluster() - 1) / h.cluster() as int) as u64,
        csize_shift: shift,
        csize_mask: ((1u64 << ((h.cluster_bits - 8) as u32)) - 1) as u64,
        offset_mask: ((1u64 << shift) - 1) as u64,
        codec: if h.zstd {
            Codec::Zstd
        } else {
            Codec::Deflate
        },
        zero_flag: h.version >= 3 && !h.extended_l2,
        extended: h.extended_l2,
        pending: None,
    }
}

/// Opens the disk in a QCOW2 file of `size` bytes.
#[verifier::spinoff_prover]
#[verifier::rlimit(40)]
pub fn open(size: u64, have: &Loaded) -> (r: Result<VDisk<Clusters>, Stop>)
    ensures
        match r {
            Ok(d) => {
                &&& d.wf()
                &&& d.pos == 0
                &&& d.src@ == plain(size)
                &&& forall|file: Seq<u8>| #[trigger]
                    have.shows(plain(size), file) ==> {
                        &&& header_of(plain(size), file) is Ok
                        &&& d.size == (header_of(plain(size), file)->Ok_0).size
                        &&& d.opens(
                            clusters_for(header_of(plain(size), file)->Ok_0),
                            d.src@,
                            file,
                        )
                    }
            },
            Err(Stop::Failed(e)) => forall|file: Seq<u8>| #[trigger]
                have.shows(plain(size), file) ==> header_of(plain(size), file) == Err::<Header, Fault>(e@),
            Err(Stop::Need { offset, len }) => have.lacks(plain(size), offset, len),
        },
{
    let src: Source = Source::new(size);
    let h: Header = match header(&src, have) {
        Ok(h) => h,
        Err(s) => {
            return Err(s);
        },
    };
    proof {
        lemma_cluster(h.cluster_bits);
    }
    let cluster: u64 = 1u64 << h.cluster_bits;
    let entry_size: usize = if h.extended_l2 {
        16
    } else {
        8
    };
    let l2_entries: u64 = cluster / entry_size as u64;
    let extra_bits: u32 = h.cluster_bits - 8;
    // For compressed clusters: x = 62 - (cluster_bits - 8) bits of offset, then the number
    // of extra 512-byte sectors.
    let csize_shift: u32 = 62 - extra_bits;
    let clusters: u64 = (h.size + cluster - 1) / cluster;
    proof {
        if h.extended_l2 {
            assert(l2_entries == cluster / 16);
            assert(l2_entries * 16 == cluster);
        } else {
            assert(l2_entries == cluster / 8);
            assert(l2_entries * 8 == cluster);
        }
        assert(l2_entries * entry_size == cluster);
        assert(1 <= extra_bits <= 13 ==> 1 <= (1u64 << extra_bits) <= 0x2000) by (bit_vector);
        assert(49 <= csize_shift <= 61 ==> 1 <= (1u64 << csize_shift)) by (bit_vector);
        assert(clusters * cluster <= h.size + cluster - 1) by (nonlinear_arith)
            requires
                clusters == (h.size + cluster - 1) / (cluster as int),
                cluster > 0,
        ;
    }
    let layout: Clusters = Clusters {
        l1: Table::new(h.l1_offset, h.l1_size, 8),
        cluster,
        l2_entries,
        entry_size,
        next: 0,
        clusters,
        csize_shift,
        csize_mask: (1u64 << extra_bits) - 1,
        offset_mask: (1u64 << csize_shift) - 1,
        codec: if h.zstd {
            Codec::Zstd
        } else {
            Codec::Deflate
        },
        zero_flag: h.version >= 3 && !h.extended_l2,
        extended: h.extended_l2,
        pending: None,
    };
    Ok(VDisk::new(src, h.size, layout))
}

// What the disk holds, by the format.

/// The byte at `pos` of a file, and zero behind its end.
pub open spec fn byte_in(file: Seq<u8>, pos: int) -> u8 {
    if 0 <= pos < file.len() {
        file[pos]
    } else {
        0
    }
}

/// Bits 9 to 55 of a number, in their places.
pub open spec fn host_of(n: nat) -> int {
    (n / 512 % 0x8000_0000_0000) as int * 512
}

/// Where the file says what cluster `k` of the disk is: in entry `k % per` of the L2 table that
/// entry `k / per` of the L1 table points to, if it points to one.
pub open spec fn entry_at(file: Seq<u8>, k: int, per: int, entry: int) -> Option<int> {
    let at = be_value(file.subrange(40, 48)) + 8 * (k / per);
    let table = host_of(be_value(file.subrange(at, at + 8)));
    if table == 0 {
        None
    } else {
        Some(table + k % per * entry)
    }
}

/// Byte `p` of the disk in a QCOW2 file.
pub open spec fn guest_byte(file: Seq<u8>, p: int) -> u8 {
    let version = be_value(file.subrange(4, 8));
    let bits = be_value(file.subrange(20, 24));
    let features = if version == 3 {
        be_value(file.subrange(72, 80))
    } else {
        0
    };
    let extended = features / 16 % 2 == 1;
    let cluster = pow2(bits) as int;
    let entry = if extended {
        16int
    } else {
        8
    };
    match entry_at(file, p / cluster, cluster / entry, entry) {
        None => 0,
        Some(at) => {
            let e = be_value(file.subrange(at, at + 8));
            let within = p % cluster;
            if e / 0x4000_0000_0000_0000 % 2 == 1 {
                let split = pow2((70 - bits) as nat);
                let offset = e % split;
                let sectors = e / split % pow2((bits - 8) as nat) + 1;
                let end = offset + sectors * 512 - offset % 512;
                let stored = if offset >= file.len() {
                    Seq::empty()
                } else if end > file.len() {
                    file.subrange(offset as int, file.len() as int)
                } else {
                    file.subrange(offset as int, end)
                };
                let codec = if features / 8 % 2 == 1 && be_value(file.subrange(100, 104)) > 104 && byte_in(file, 104)
                    == 1 {
                    Codec::Zstd
                } else {
                    Codec::Deflate
                };
                decoded(codec, stored, cluster as nat)->Ok_0[within]
            } else if host_of(e) == 0 {
                0
            } else if extended {
                if be_value(file.subrange(at + 8, at + 16)) / pow2((within / (cluster / 32)) as nat) % 2 == 1 {
                    byte_in(file, host_of(e) + within)
                } else {
                    0
                }
            } else if version == 3 && e % 2 == 1 {
                0
            } else {
                byte_in(file, host_of(e) + within)
            }
        },
    }
}

proof fn lemma_bits(x: u64)
    ensures
        (x & OFFSET_MASK) == host_of(x as nat),
        (x & COMPRESSED != 0) == (x as nat / 0x4000_0000_0000_0000 % 2 == 1),
        (x & 1 != 0) == (x as nat % 2 == 1),
        (x & 8 != 0) == (x as nat / 8 % 2 == 1),
        (x & 16 != 0) == (x as nat / 16 % 2 == 1),
        (x & 511) == x as nat % 512,
{
    assert((x & 0x00ff_ffff_ffff_fe00) == x / 512 % 0x8000_0000_0000 * 512) by (bit_vector);
    assert((x & 0x4000_0000_0000_0000 != 0) == (x / 0x4000_0000_0000_0000 % 2 == 1)) by (bit_vector);
    assert((x & 1 != 0) == (x % 2 == 1) && (x & 8 != 0) == (x / 8 % 2 == 1) && (x & 16 != 0) == (x / 16 % 2 == 1) && (
    x & 511) == x % 512) by (bit_vector);
}

/// What a header that was read says, by the file's bytes.
proof fn lemma_header(file: Seq<u8>, h: Header)
    requires
        file.len() <= u64::MAX,
        header_of(plain(file.len() as u64), file) == Ok::<Header, Fault>(h),
    ensures
        file.len() >= 72,
        h.wf(),
        h.version == be_value(file.subrange(4, 8)),
        h.version == 2 || h.version == 3,
        h.size == be_value(file.subrange(24, 32)),
        h.cluster_bits == be_value(file.subrange(20, 24)),
        h.l1_offset == be_value(file.subrange(40, 48)),
        h.l1_size == be_value(file.subrange(36, 40)),
        h.l1_size >= l1_needed(h.size, h.cluster(), h.entry_size()),
        h.extended_l2 == (h.version == 3 && be_value(file.subrange(72, 80)) / 16 % 2 == 1),
        h.zstd == (h.version == 3 && be_value(file.subrange(72, 80)) / 8 % 2 == 1 && be_value(file.subrange(100, 104))
            > 104 && byte_in(file, 104) == 1),
        h.cluster() == pow2(h.cluster_bits as nat),
{
    reveal(header_of);
    let src = plain(file.len() as u64);
    let b = src.read_upto(file, 0, 4096)->Ok_0;
    assert(b.len() <= 4096 && b.len() <= file.len());
    assert forall|i: int| 0 <= i < b.len() implies b[i] == file[i] by {
        assert(src.seen(file, i) == file[i]);
    }
    law_fields_are_numbers(b, 4);
    law_fields_are_numbers(b, 20);
    law_fields_are_numbers(b, 24);
    law_fields_are_numbers(b, 36);
    law_fields_are_numbers(b, 40);
    assert(b.subrange(4, 8) =~= file.subrange(4, 8));
    assert(b.subrange(20, 24) =~= file.subrange(20, 24));
    assert(b.subrange(24, 32) =~= file.subrange(24, 32));
    assert(b.subrange(36, 40) =~= file.subrange(36, 40));
    assert(b.subrange(40, 48) =~= file.subrange(40, 48));
    if h.version == 3 {
        law_fields_are_numbers(b, 72);
        law_fields_are_numbers(b, 100);
        assert(b.subrange(72, 80) =~= file.subrange(72, 80));
        assert(b.subrange(100, 104) =~= file.subrange(100, 104));
        lemma_bits(be64_at(b, 72));
    }
    let zero = 0u64;
    assert(zero & 16 == 0 && zero & 8 == 0) by (bit_vector)
        requires
            zero == 0,
    ;
    lemma_cluster(h.cluster_bits);
    vstd::arithmetic::power2::lemma2_to64();
    vstd::arithmetic::power2::lemma2_to64_rest();
    vstd::bits::lemma_u64_pow2_no_overflow(h.cluster_bits as nat);
    vstd::bits::lemma_u64_shl_is_mul(1u64, h.cluster_bits as u64);
}

/// A map of a disk that stands at `pos` of it.
spec fn stands(m: Clusters, h: Header, file: Seq<u8>, pos: int) -> bool {
    let c = clusters_for(h);
    &&& m == (Clusters { next: m.next, pending: m.pending, ..c })
    &&& match m.pending {
        None => pos == m.next * c.cluster,
        Some(s) => {
            let at = entry_at(file, m.next - 1, c.l2_entries as int, 16);
            &&& h.extended_l2
            &&& m.next >= 1
            &&& 1 <= s.next < 32
            &&& pos == (m.next - 1) * c.cluster + s.next * (c.cluster as int / 32)
            &&& at is Some
            &&& be_value(file.subrange(at->0, at->0 + 8)) / 0x4000_0000_0000_0000 % 2 == 0
            &&& s.host == host_of(be_value(file.subrange(at->0, at->0 + 8)))
            &&& s.host != 0
            &&& s.bitmap == be_value(file.subrange(at->0 + 8, at->0 + 16))
        },
    }
}

proof fn lemma_table_entry(t: Table, file: Seq<u8>, i: u64)
    requires
        file.len() <= u64::MAX,
        t.entry_size == 8,
        i < t.entries,
        t.entry(plain(file.len() as u64), file, i) is Ok,
    ensures
        t.offset + 8 * i + 8 <= file.len(),
        t.entry(plain(file.len() as u64), file, i) == Ok::<Option<Seq<u8>>, Fault>(
            Some(file.subrange(t.offset + 8 * i, t.offset + 8 * i + 8)),
        ),
{
    let src = plain(file.len() as u64);
    let w = t.span(i);
    let per = WINDOW as int / 8;
    let first = i - i as int % per;
    assert(w.at == t.offset + 8 * i);
    assert(w.start + w.len >= w.at + 8);
    let b = src.bytes(file, w.at as u64, 8);
    assert forall|j: int| 0 <= j < 8 implies b[j] == file[w.at + j] by {
        assert(src.seen(file, w.at + j) == file[w.at + j]);
    }
    assert(b =~= file.subrange(w.at, w.at + 8));
}

proof fn lemma_tables(k: int, per: int, cluster: int, size: int, needed: int)
    requires
        0 <= k,
        per > 0,
        cluster > 0,
        k * cluster < size,
        needed == (size + cluster * per - 1) / (cluster * per),
    ensures
        k / per < needed,
{
    let span = cluster * per;
    let q = k / per;
    assert(q * per <= k) by (nonlinear_arith)
        requires
            q == k / per,
            per > 0,
    ;
    assert(q * span <= k * cluster) by (nonlinear_arith)
        requires
            q * per <= k,
            span == cluster * per,
            cluster > 0,
    ;
    assert(span > 0) by (nonlinear_arith)
        requires
            span == cluster * per,
            cluster > 0,
            per > 0,
    ;
    assert(q + 1 <= (size + span - 1) / span) by (nonlinear_arith)
        requires
            q * span < size,
            span > 0,
    ;
}

proof fn lemma_within(k: int, cluster: int, j: int)
    requires
        cluster > 0,
        0 <= j < cluster,
    ensures
        (k * cluster + j) / cluster == k,
        (k * cluster + j) % cluster == j,
{
    vstd::arithmetic::div_mod::lemma_fundamental_div_mod_converse(k * cluster + j, cluster, k, j);
}

proof fn lemma_run(k: int, n: int, cluster: int, per: int, j: int)
    requires
        0 <= k,
        cluster > 0,
        per > 0,
        n <= per - k % per,
        0 <= j < n * cluster,
    ensures
        (k * cluster + j) / cluster / per == k / per,
{
    let a = j / cluster;
    let b = j % cluster;
    assert(j == a * cluster + b && 0 <= b < cluster && 0 <= a < n) by (nonlinear_arith)
        requires
            a == j / cluster,
            b == j % cluster,
            0 <= j < n * cluster,
            cluster > 0,
    ;
    assert(k * cluster + j == (k + a) * cluster + b) by (nonlinear_arith)
        requires
            j == a * cluster + b,
    ;
    lemma_within(k + a, cluster, b);
    let q = k / per;
    let r = k % per;
    assert(k == q * per + r) by (nonlinear_arith)
        requires
            q == k / per,
            r == k % per,
            per > 0,
    ;
    vstd::arithmetic::div_mod::lemma_fundamental_div_mod_converse(k + a, per, q, r + a);
}

/// What holds of the numbers in a map.
proof fn lemma_map(h: Header)
    requires
        h.wf(),
        h.cluster() == pow2(h.cluster_bits as nat),
    ensures
        ({
            let c = clusters_for(h);
            &&& 512 <= c.cluster <= 0x20_0000
            &&& c.cluster as int % 32 == 0
            &&& h.extended_l2 ==> c.entry_size == 16 && c.l2_entries == c.cluster as int / 16
            &&& !h.extended_l2 ==> c.entry_size == 8 && c.l2_entries == c.cluster as int / 8
            &&& h.size <= c.clusters * c.cluster
            &&& c.clusters * c.cluster < h.size + c.cluster
            &&& forall|e: u64| #[trigger] (e & c.offset_mask) == e as nat % pow2((70 - h.cluster_bits) as nat)
            &&& forall|e: u64| #[trigger]
                ((e >> c.csize_shift) & c.csize_mask) == e as nat / pow2((70 - h.cluster_bits) as nat) % pow2(
                    (h.cluster_bits - 8) as nat,
                )
            &&& 1 <= pow2((h.cluster_bits - 8) as nat) <= 0x2000
        }),
{
    let c = clusters_for(h);
    let bits = h.cluster_bits as nat;
    let x = (70 - h.cluster_bits) as nat;
    let y = (h.cluster_bits - 8) as nat;
    lemma_cluster(h.cluster_bits);
    vstd::arithmetic::power2::lemma2_to64();
    vstd::arithmetic::power2::lemma2_to64_rest();
    vstd::bits::lemma_u64_pow2_no_overflow(x);
    vstd::bits::lemma_u64_pow2_no_overflow(y);
    vstd::bits::lemma_u64_shl_is_mul(1u64, x as u64);
    vstd::bits::lemma_u64_shl_is_mul(1u64, y as u64);
    vstd::arithmetic::power2::lemma_pow2_pos(x);
    vstd::arithmetic::power2::lemma_pow2_pos(y);
    assert(c.csize_shift == x);
    assert((1u64 << c.csize_shift) == pow2(x));
    assert((1u64 << ((h.cluster_bits - 8) as u32)) == pow2(y));
    assert forall|e: u64| #[trigger] (e & c.offset_mask) == e as nat % pow2(x) by {
        vstd::bits::lemma_u64_low_bits_mask_is_mod(e, x);
    }
    assert forall|e: u64| #[trigger] ((e >> c.csize_shift) & c.csize_mask) == e as nat / pow2(x) % pow2(y) by {
        vstd::bits::lemma_u64_shr_is_div(e, x as u64);
        vstd::bits::lemma_u64_low_bits_mask_is_mod(e >> c.csize_shift, y);
    }
    vstd::arithmetic::power2::lemma_pow2_adds(y, 8);
    let n = (h.size + c.cluster - 1) / c.cluster as int;
    assert(h.size <= n * c.cluster && n * c.cluster < h.size + c.cluster && 0 <= n <= h.size) by (nonlinear_arith)
        requires
            n == (h.size + c.cluster - 1) / c.cluster as int,
            c.cluster >= 512,
            h.size >= 0,
    ;
}

proof fn lemma_bitmap(b: u64, n: u64)
    requires
        n < 32,
    ensures
        (b & (1u64 << n) != 0) == (b as nat / pow2(n as nat) % 2 == 1),
{
    assert((b & (1u64 << n) != 0) == ((b >> n) % 2 == 1)) by (bit_vector)
        requires
            n < 32,
    ;
    vstd::bits::lemma_u64_shr_is_div(b, n);
}

/// The next subcluster is what the bitmap says.
proof fn lemma_sub(m: Clusters, h: Header, file: Seq<u8>, k: int, s: Subs, at: int, pos: int)
    requires
        file.len() <= u64::MAX,
        header_of(plain(file.len() as u64), file) == Ok::<Header, Fault>(h),
        m == (Clusters { next: m.next, pending: m.pending, ..clusters_for(h) }),
        h.extended_l2,
        m.next == k + 1,
        0 <= k,
        s.next < 32,
        pos == k * m.cluster + s.next * (m.cluster as int / 32),
        pos < h.size,
        entry_at(file, k, m.l2_entries as int, 16) == Some(at),
        be_value(file.subrange(at, at + 8)) / 0x4000_0000_0000_0000 % 2 == 0,
        s.host == host_of(be_value(file.subrange(at, at + 8))),
        s.host != 0,
        s.bitmap == be_value(file.subrange(at + 8, at + 16)),
    ensures
        ({
            let (p, next) = m.sub_step(s);
            &&& p.len == m.cluster as int / 32
            &&& !(p.run is Packed)
            &&& forall|j: int|
                0 <= j < least(p.len as int, h.size - pos) ==> #[trigger] piece_bytes(
                    plain(file.len() as u64),
                    file,
                    pos as u64,
                    p,
                    least(p.len as int, h.size - pos) as nat,
                )[j] == guest_byte(file, pos + j)
            &&& stands(next, h, file, pos + p.len)
        }),
{
    lemma_header(file, h);
    lemma_map(h);
    lemma_bitmap(s.bitmap, s.next);
    let src = plain(file.len() as u64);
    let cluster = m.cluster as int;
    let sub = cluster / 32;
    let (p, next) = m.sub_step(s);
    let n = least(p.len as int, h.size - pos) as nat;
    assert(s.next * sub <= 31 * sub) by (nonlinear_arith)
        requires
            s.next <= 31,
            sub >= 0,
    ;
    assert forall|j: int| 0 <= j < n implies #[trigger] piece_bytes(src, file, pos as u64, p, n)[j] == guest_byte(
        file,
        pos + j,
    ) by {
        let within = s.next * sub + j;
        assert(0 <= within < cluster);
        lemma_within(k, cluster, within);
        lemma_within(s.next as int, sub, j);
        assert(pos + j == k * cluster + within);
        if s.bitmap & (1u64 << s.next) != 0 {
            assert(src.seen(file, s.host + s.next * sub + j) == byte_in(file, s.host + within));
        }
    }
    assert((s.next + 1) * sub == s.next * sub + sub) by (nonlinear_arith);
    if s.next + 1 >= 32 {
        assert(32 * sub == cluster);
        assert((k + 1) * cluster == k * cluster + cluster) by (nonlinear_arith);
    }
}

/// A map leads on to what the format says.
#[verifier::spinoff_prover]
#[verifier::rlimit(80)]
proof fn lemma_leads(m: Clusters, h: Header, file: Seq<u8>, pos: int)
    requires
        file.len() <= u64::MAX,
        header_of(plain(file.len() as u64), file) == Ok::<Header, Fault>(h),
        stands(m, h, file, pos),
        0 <= pos < h.size,
    ensures
        leads(
            m,
            plain(file.len() as u64),
            file,
            h.size,
            pos,
            |x: Clusters, at: int| stands(x, h, file, at),
            |p: int| guest_byte(file, p),
        ),
{
    lemma_header(file, h);
    lemma_map(h);
    let src = plain(file.len() as u64);
    let good = |x: Clusters, at: int| stands(x, h, file, at);
    let byte = |p: int| guest_byte(file, p);
    let cluster = m.cluster as int;
    let per = m.l2_entries as int;
    match m.pending {
        Some(s) => {
            let at = entry_at(file, m.next - 1, per, 16)->0;
            lemma_sub(m, h, file, m.next - 1, s, at, pos);
            let (p, next) = m.sub_step(s);
            assert(m.step(src, file) == Ok::<Option<(Piece, Clusters)>, Fault>(Some((p, next))));
        },
        None => {
            let k = m.next as int;
            assert(k < m.clusters) by (nonlinear_arith)
                requires
                    k * cluster < h.size,
                    h.size <= m.clusters * cluster,
                    cluster > 0,
            ;
            lemma_tables(k, per, cluster, h.size as int, l1_needed(h.size, h.cluster(), h.entry_size()));
            let i = (m.next / m.l2_entries) as u64;
            if let Ok(e) = m.l1.entry(src, file, i) {
                lemma_table_entry(m.l1, file, i);
                let at = m.l1.offset + 8 * i;
                let b = file.subrange(at, at + 8);
                assert(e == Some(b));
                law_fields_are_numbers(b, 0);
                assert(b.subrange(0, 8) =~= b);
                lemma_bits(be64_at(b, 0));
                let table = be64_at(b, 0) & OFFSET_MASK;
                assert(table == host_of(be_value(b)));
                if table == 0 {
                    lemma_leads_over(m, h, file, pos);
                } else {
                    lemma_leads_into(m, h, file, pos, table);
                }
            }
        },
    }
}

/// Where there is no L2 table, zeros follow.
proof fn lemma_leads_over(m: Clusters, h: Header, file: Seq<u8>, pos: int)
    requires
        file.len() <= u64::MAX,
        header_of(plain(file.len() as u64), file) == Ok::<Header, Fault>(h),
        stands(m, h, file, pos),
        m.pending is None,
        0 <= pos < h.size,
        m.next < m.clusters,
        m.l1.entry(plain(file.len() as u64), file, (m.next / m.l2_entries) as u64) matches Ok(Some(b)) && be64_at(b, 0)
            & OFFSET_MASK == 0,
        entry_at(file, m.next as int, m.l2_entries as int, m.entry_size as int) is None,
    ensures
        leads(
            m,
            plain(file.len() as u64),
            file,
            h.size,
            pos,
            |x: Clusters, at: int| stands(x, h, file, at),
            |p: int| guest_byte(file, p),
        ),
{
    lemma_header(file, h);
    lemma_map(h);
    let src = plain(file.len() as u64);
    let byte = |p: int| guest_byte(file, p);
    let cluster = m.cluster as int;
    let per = m.l2_entries as int;
    let k = m.next as int;
    let in_table = per - k % per;
    let n = if in_table <= m.clusters - k {
        in_table
    } else {
        m.clusters - k
    };
    assert(0 < n);
    assert(0 < n * cluster <= m.clusters * cluster && (k + n) * cluster == k * cluster + n * cluster) by (nonlinear_arith)
        requires
            0 < n,
            n + k <= m.clusters,
            k >= 0,
            cluster > 0,
    ;
    let p = Piece { len: (n * cluster) as u64, run: Run::Zeros };
    let next = Clusters { next: (m.next + n) as u64, ..m };
    assert(m.step(src, file) == Ok::<Option<(Piece, Clusters)>, Fault>(Some((p, next))));
    let len = least(p.len as int, h.size - pos) as nat;
    assert forall|j: int| 0 <= j < len implies #[trigger] piece_bytes(src, file, pos as u64, p, len)[j] == byte(
        pos + j,
    ) by {
        lemma_run(k, n, cluster, per, j);
        assert(entry_at(file, (pos + j) / cluster, per, m.entry_size as int) is None);
    }
    assert(stands(next, h, file, pos + p.len));
}

/// A piece that follows at `pos`, and the map after it.
spec fn follows(p: Piece, next: Clusters, h: Header, file: Seq<u8>, pos: int) -> bool {
    let src = plain(file.len() as u64);
    let n = least(p.len as int, h.size - pos) as nat;
    &&& p.len > 0
    &&& stands(next, h, file, pos + p.len)
    &&& (p.run matches Run::Packed(packed) ==> block_of(src, file, pos as u64, p.len, packed) is Ok) ==> forall|j: int|
        0 <= j < n ==> #[trigger] piece_bytes(src, file, pos as u64, p, n)[j] == guest_byte(file, pos + j)
}

/// A cluster that is compressed.
#[verifier::spinoff_prover]
#[verifier::rlimit(60)]
proof fn lemma_packed_follows(m: Clusters, h: Header, file: Seq<u8>, pos: int, at: int, e: Seq<u8>)
    requires
        file.len() <= u64::MAX,
        header_of(plain(file.len() as u64), file) == Ok::<Header, Fault>(h),
        stands(m, h, file, pos),
        m.pending is None,
        0 <= pos < h.size,
        m.next < m.clusters,
        entry_at(file, m.next as int, m.l2_entries as int, m.entry_size as int) == Some(at),
        be64_at(e, 0) == be_value(file.subrange(at, at + 8)),
        be64_at(e, 0) & COMPRESSED != 0,
    ensures
        m.entry_step(e) matches Ok((p, next)) && follows(p, next, h, file, pos),
{
    lemma_header(file, h);
    lemma_map(h);
    let src = plain(file.len() as u64);
    let cluster = m.cluster as int;
    let k = m.next as int;
    let entry = be64_at(e, 0);
    let v = entry as nat;
    lemma_bits(entry);
    assert((k + 1) * cluster == k * cluster + cluster) by (nonlinear_arith);
    let x = pow2((70 - h.cluster_bits) as nat);
    let y = pow2((h.cluster_bits - 8) as nat);
    let offset = entry & m.offset_mask;
    assert(offset == v % x);
    let sectors = ((entry >> m.csize_shift) & m.csize_mask) + 1;
    assert(sectors == v / x % y + 1);
    lemma_bits(offset);
    assert(v / x % y < y) by (nonlinear_arith)
        requires
            y > 0,
    ;
    let (p, next) = m.entry_step(e)->Ok_0;
    let packed = p.run->Packed_0;
    assert(packed.len == sectors * 512 - offset as int % 512);
    lemma_stored(file, offset, packed.len);
    let n = least(p.len as int, h.size - pos) as nat;
    if block_of(src, file, pos as u64, p.len, packed) is Ok {
        let got = block_of(src, file, pos as u64, p.len, packed)->Ok_0;
        assert(got.len() >= cluster);
        let stored = src.read_upto(file, offset, packed.len as nat)->Ok_0;
        assert(decoded(packed.codec, stored, cluster as nat) == Ok::<Seq<u8>, Fault>(got));
        assert forall|j: int| 0 <= j < n implies #[trigger] piece_bytes(src, file, pos as u64, p, n)[j] == guest_byte(
            file,
            pos + j,
        ) by {
            lemma_within(k, cluster, j);
            assert(piece_bytes(src, file, pos as u64, p, n)[j] == got[j]);
        }
    }
}

/// A cluster that is stored as it is, or is zeros.
#[verifier::spinoff_prover]
#[verifier::rlimit(60)]
proof fn lemma_plain_follows(m: Clusters, h: Header, file: Seq<u8>, pos: int, at: int, e: Seq<u8>)
    requires
        file.len() <= u64::MAX,
        header_of(plain(file.len() as u64), file) == Ok::<Header, Fault>(h),
        stands(m, h, file, pos),
        m.pending is None,
        0 <= pos < h.size,
        m.next < m.clusters,
        entry_at(file, m.next as int, m.l2_entries as int, m.entry_size as int) == Some(at),
        be64_at(e, 0) == be_value(file.subrange(at, at + 8)),
        be64_at(e, 0) & COMPRESSED == 0,
        h.extended_l2 ==> host_of(be64_at(e, 0) as nat) == 0,
        m.entry_step(e) is Ok,
    ensures
        m.entry_step(e) matches Ok((p, next)) && follows(p, next, h, file, pos),
{
    lemma_header(file, h);
    lemma_map(h);
    let src = plain(file.len() as u64);
    let cluster = m.cluster as int;
    let k = m.next as int;
    let entry = be64_at(e, 0);
    lemma_bits(entry);
    assert((k + 1) * cluster == k * cluster + cluster) by (nonlinear_arith);
    let (p, next) = m.entry_step(e)->Ok_0;
    let n = least(p.len as int, h.size - pos) as nat;
    assert forall|j: int| 0 <= j < n implies #[trigger] piece_bytes(src, file, pos as u64, p, n)[j] == guest_byte(
        file,
        pos + j,
    ) by {
        lemma_within(k, cluster, j);
        if let Run::Stored(host) = p.run {
            assert(src.seen(file, host + j) == byte_in(file, host + j));
        }
    }
}

/// The entry that an L2 table has for the next cluster.
spec fn own_entry(m: Clusters, file: Seq<u8>, table: u64) -> Seq<u8> {
    let rel = (m.next as int % m.l2_entries as int) * m.entry_size;
    plain(file.len() as u64).bytes(file, table, m.cluster as nat).subrange(rel, rel + m.entry_size)
}

#[verifier::spinoff_prover]
#[verifier::rlimit(60)]
proof fn lemma_own_entry(m: Clusters, h: Header, file: Seq<u8>, pos: int, table: u64, at: int)
    requires
        file.len() <= u64::MAX,
        header_of(plain(file.len() as u64), file) == Ok::<Header, Fault>(h),
        stands(m, h, file, pos),
        m.l2_step(plain(file.len() as u64), file, table) is Ok,
        at == table + m.next as int % m.l2_entries as int * m.entry_size,
    ensures
        m.entry_step(own_entry(m, file, table)) == m.l2_step(plain(file.len() as u64), file, table),
        own_entry(m, file, table).len() == m.entry_size,
        be64_at(own_entry(m, file, table), 0) == be_value(file.subrange(at, at + 8)),
        m.entry_size == 16 ==> be64_at(own_entry(m, file, table), 8) == be_value(file.subrange(at + 8, at + 16)),
{
    lemma_header(file, h);
    lemma_map(h);
    let src = plain(file.len() as u64);
    let cluster = m.cluster as int;
    let per = m.l2_entries as int;
    let k = m.next as int;
    let size = m.entry_size as int;
    let rel = (k % per) * size;
    assert(cluster % 32 == 0);
    if h.extended_l2 {
        assert(size == 16 && per == cluster / 16);
        assert(per * size == cluster);
    } else {
        assert(size == 8);
        assert(per == cluster / 8);
        assert(cluster % 8 == 0);
        assert(per * size == cluster);
    }
    assert(0 <= k % per < per);
    assert(0 <= rel && rel + size <= cluster) by (nonlinear_arith)
        requires
            rel == (k % per) * size,
            0 <= k % per <= per - 1,
            per * size == cluster,
            size > 0,
    ;
    let l2 = src.bytes(file, table, m.cluster as nat);
    let e = own_entry(m, file, table);
    assert(at + size <= file.len());
    assert forall|j: int| 0 <= j < size implies e[j] == file[at + j] by {
        assert(l2[rel + j] == src.seen(file, table + (rel + j)));
    }
    law_fields_are_numbers(e, 0);
    assert(e.subrange(0, 8) =~= file.subrange(at, at + 8));
    if size == 16 {
        law_fields_are_numbers(e, 8);
        assert(e.subrange(8, 16) =~= file.subrange(at + 8, at + 16));
    }
}

/// A cluster whose parts have bits of their own.
#[verifier::spinoff_prover]
#[verifier::rlimit(60)]
proof fn lemma_parts_follow(m: Clusters, h: Header, file: Seq<u8>, pos: int, at: int, e: Seq<u8>)
    requires
        file.len() <= u64::MAX,
        header_of(plain(file.len() as u64), file) == Ok::<Header, Fault>(h),
        stands(m, h, file, pos),
        m.pending is None,
        0 <= pos < h.size,
        m.next < m.clusters,
        entry_at(file, m.next as int, m.l2_entries as int, m.entry_size as int) == Some(at),
        e.len() == m.entry_size,
        be64_at(e, 0) == be_value(file.subrange(at, at + 8)),
        m.entry_size == 16 ==> be64_at(e, 8) == be_value(file.subrange(at + 8, at + 16)),
        be64_at(e, 0) & COMPRESSED == 0,
        m.extended,
        host_of(be64_at(e, 0) as nat) != 0,
        m.entry_step(e) is Ok,
    ensures
        m.entry_step(e) matches Ok((p, next)) && follows(p, next, h, file, pos),
{
    lemma_header(file, h);
    lemma_map(h);
    let entry = be64_at(e, 0);
    lemma_bits(entry);
    let cluster = m.cluster as int;
    let after = Clusters { next: (m.next + 1) as u64, ..m };
    let s = Subs { host: (entry & OFFSET_MASK), bitmap: be64_at(e, 8), next: 0 };
    assert(0 * (cluster / 32) == 0);
    lemma_sub(after, h, file, m.next as int, s, at, pos);
}

/// Where there is one, its entry says what follows.
#[verifier::spinoff_prover]
#[verifier::rlimit(60)]
proof fn lemma_entry_follows(m: Clusters, h: Header, file: Seq<u8>, pos: int, table: u64, at: int)
    requires
        file.len() <= u64::MAX,
        header_of(plain(file.len() as u64), file) == Ok::<Header, Fault>(h),
        stands(m, h, file, pos),
        m.pending is None,
        0 <= pos < h.size,
        m.next < m.clusters,
        at == table + m.next as int % m.l2_entries as int * m.entry_size,
        entry_at(file, m.next as int, m.l2_entries as int, m.entry_size as int) == Some(at),
        m.l2_step(plain(file.len() as u64), file, table) is Ok,
    ensures
        m.l2_step(plain(file.len() as u64), file, table) matches Ok((p, next)) && follows(p, next, h, file, pos),
{
    let e = own_entry(m, file, table);
    lemma_own_entry(m, h, file, pos, table, at);
    let entry = be64_at(e, 0);
    if entry & COMPRESSED != 0 {
        lemma_packed_follows(m, h, file, pos, at, e);
    } else if m.extended && host_of(entry as nat) != 0 {
        lemma_parts_follow(m, h, file, pos, at, e);
    } else {
        lemma_plain_follows(m, h, file, pos, at, e);
    }
}

/// An L2 table leads on.
#[verifier::spinoff_prover]
#[verifier::rlimit(60)]
proof fn lemma_leads_into(m: Clusters, h: Header, file: Seq<u8>, pos: int, table: u64)
    requires
        file.len() <= u64::MAX,
        header_of(plain(file.len() as u64), file) == Ok::<Header, Fault>(h),
        stands(m, h, file, pos),
        m.pending is None,
        0 <= pos < h.size,
        m.next < m.clusters,
        m.l1.entry(plain(file.len() as u64), file, (m.next / m.l2_entries) as u64) matches Ok(Some(b)) && be64_at(b, 0)
            & OFFSET_MASK == table,
        table != 0,
        entry_at(file, m.next as int, m.l2_entries as int, m.entry_size as int) == Some(
            table + m.next as int % m.l2_entries as int * m.entry_size,
        ),
    ensures
        leads(
            m,
            plain(file.len() as u64),
            file,
            h.size,
            pos,
            |x: Clusters, at: int| stands(x, h, file, at),
            |p: int| guest_byte(file, p),
        ),
{
    let src = plain(file.len() as u64);
    let byte = |p: int| guest_byte(file, p);
    let step = m.l2_step(src, file, table);
    if step is Ok {
        let at = table + m.next as int % m.l2_entries as int * m.entry_size;
        lemma_entry_follows(m, h, file, pos, table, at);
        let (p, next) = step->Ok_0;
        assert(m.step(src, file) == Ok::<Option<(Piece, Clusters)>, Fault>(Some((p, next))));
        let n = least(p.len as int, h.size - pos) as nat;
        if p.run matches Run::Packed(packed) ==> block_of(src, file, pos as u64, p.len, packed) is Ok {
            assert forall|j: int| 0 <= j < n implies #[trigger] piece_bytes(src, file, pos as u64, p, n)[j] == byte(
                pos + j,
            ) by {
                assert(piece_bytes(src, file, pos as u64, p, n)[j] == guest_byte(file, pos + j));
            }
        }
    }
}

/// The part of a compressed block that the file holds.
proof fn lemma_stored(file: Seq<u8>, offset: u64, len: u32)
    requires
        file.len() <= u64::MAX,
    ensures
        offset > file.len() ==> plain(file.len() as u64).read_upto(file, offset, len as nat) is Err,
        offset <= file.len() ==> plain(file.len() as u64).read_upto(file, offset, len as nat) == Ok::<Seq<u8>, Fault>(
            if offset >= file.len() {
                Seq::empty()
            } else if offset + len > file.len() {
                file.subrange(offset as int, file.len() as int)
            } else {
                file.subrange(offset as int, offset + len)
            },
        ),
{
    let src = plain(file.len() as u64);
    let n = src.available(offset, len as nat);
    let b = src.bytes(file, offset, n);
    assert forall|i: int| 0 <= i < n implies b[i] == file[offset + i] by {
        assert(src.seen(file, offset + i) == file[offset + i]);
    }
    if offset >= file.len() {
        assert(b =~= Seq::<u8>::empty());
    } else {
        assert(b =~= file.subrange(offset as int, offset + n));
    }
}

/// The disk in a QCOW2 file, read to its end, is as the format says: each byte comes from the
/// cluster that holds it, which is looked up in the L2 table that its own L1 entry points to.
pub proof fn law_disk_is_as_the_format_says(disks: Seq<VDisk<Clusters>>, reads: Seq<Seq<u8>>, file: Seq<u8>, h: Header)
    requires
        file.len() <= u64::MAX,
        runs(disks, reads, file),
        header_of(plain(file.len() as u64), file) == Ok::<Header, Fault>(h),
        disks[0].src@ == plain(file.len() as u64),
        disks[0].size == h.size,
        disks[0].opens(clusters_for(h), plain(file.len() as u64), file),
    ensures
        given(reads).len() == be_value(file.subrange(24, 32)),
        forall|p: int| 0 <= p < given(reads).len() ==> #[trigger] given(reads)[p] == guest_byte(file, p),
{
    lemma_header(file, h);
    let good = |x: Clusters, at: int| stands(x, h, file, at);
    let byte = |p: int| guest_byte(file, p);
    assert(0 * clusters_for(h).cluster == 0);
    assert(good(clusters_for(h), 0));
    assert forall|m: Clusters, pos: int| #[trigger] good(m, pos) && 0 <= pos < disks[0].size implies leads(
        m,
        disks[0].src@,
        file,
        disks[0].size,
        pos,
        good,
        byte,
    ) by {
        lemma_leads(m, h, file, pos);
    }
    law_disk_holds(disks, reads, file, clusters_for(h), good, byte);
    assert forall|p: int| 0 <= p < given(reads).len() implies #[trigger] given(reads)[p] == guest_byte(file, p) by {
        assert(given(reads)[p] == byte(p));
    }
}

} // verus!
