//! Apple disk images (UDIF, .dmg). A 512-byte "koly" trailer at the end of the file points
//! to a property list (XML) whose "resource-fork" and "blkx" entries each describe a range of
//! the disk ("mish" blocks). Their chunks are zeros, raw data, or compressed: ADC (UDCO),
//! zlib (UDZO), bzip2 (UDBZ), LZFSE (ULFO) or LZMA (ULMO, an xz stream per chunk). The disk
//! is assembled by sector; each blkx's CRC-32 is checked as it goes by. Old images without
//! the XML keep the same blocks in a resource fork, which works too.
//!
//! Encrypted images, sparse images and sparse bundles (.sparseimage, .sparsebundle) and
//! segmented images (.dmgpart) are not supported.

use vstd::prelude::*;
use vstd::string::*;
use crate::engine::formats::codec::{decoded, Codec};
use crate::engine::formats::source::{
    bad, be16, be16_at, be32, be32_at, be64, be64_at, be_value, bytes_at, contains, contains_bytes, crc32, crc32_of,
    has_bytes, holds, law_crc32_in_parts, law_fields_are_numbers, plain, sector_bytes, sectors, size_text, size_text_of, unsupported, Layers, Loaded, Source, Stop,
};
use crate::engine::formats::vdisk::{
    block_of, given, law_disk_holds, law_reads_make_the_disk, leads, least, piece_bytes, runs, Layout, Packed, Piece,
    Run, VDisk, MAX_BLOCK,
};
use crate::engine::formats::Detected;
use crate::engine::ImageFormat;
use crate::error::{bad_fault, gives, unsupported_fault, Error, Fault};
use crate::text::{chars, from_utf8_lossy, hex_wide, lossy, push_hex_wide, string, trim, trimmed};
use crate::properties::{
    kept_list, kept_of, law_members_are_kept, lemma_kept_list, plist_xml, plist_xml_in, NESTING,
};
use crate::values::{lemma_parts, values, Node, Tree};

verus! {

broadcast use lemma_parts;

/// "koly": the trailer.
pub const KOLY: [u8; 4] = [0x6b, 0x6f, 0x6c, 0x79];

/// "encrcdsa": an encrypted image.
pub const ENCRYPTED: [u8; 8] = [0x65, 0x6e, 0x63, 0x72, 0x63, 0x64, 0x73, 0x61];

/// "cdsaencr": an encrypted image of the older kind, at its end.
pub const ENCRYPTED_V1: [u8; 8] = [0x63, 0x64, 0x73, 0x61, 0x65, 0x6e, 0x63, 0x72];

/// "sprs": a sparse image.
pub const SPARSE_IMAGE: [u8; 4] = [0x73, 0x70, 0x72, 0x73];

/// "com.apple.diskimage.sparsebundle".
pub const SPARSE_BUNDLE: [u8; 32] = [
    0x63, 0x6f, 0x6d, 0x2e, 0x61, 0x70, 0x70, 0x6c, 0x65, 0x2e, 0x64, 0x69, 0x73, 0x6b, 0x69, 0x6d, 0x61, 0x67, 0x65,
    0x2e, 0x73, 0x70, 0x61, 0x72, 0x73, 0x65, 0x62, 0x75, 0x6e, 0x64, 0x6c, 0x65,
];

/// "<?xml".
pub const XML: [u8; 5] = [0x3c, 0x3f, 0x78, 0x6d, 0x6c];

/// "blkx": a range of the disk.
pub const BLKX: [u8; 4] = [0x62, 0x6c, 0x6b, 0x78];

/// "mish": the block that describes it.
pub const MISH: [u8; 4] = [0x6d, 0x69, 0x73, 0x68];

// The kinds of chunks.

pub const ZERO: u32 = 0;

pub const RAW: u32 = 1;

pub const IGNORE: u32 = 2;

pub const ADC: u32 = 0x8000_0004;

pub const ZLIB: u32 = 0x8000_0005;

pub const BZIP2: u32 = 0x8000_0006;

pub const LZFSE: u32 = 0x8000_0007;

pub const LZMA: u32 = 0x8000_0008;

pub const COMMENT: u32 = 0x7fff_fffe;

pub const END: u32 = 0xffff_ffff;

/// The biggest XML property list that is read.
pub const MAX_XML: u64 = 0x800_0000;

#[derive(Clone, Copy, Debug, PartialEq, Eq, Structural)]
pub struct Koly {
    pub data_fork_offset: u64,
    pub rsrc_offset: u64,
    pub rsrc_len: u64,
    pub segment_count: u32,
    pub xml_offset: u64,
    pub xml_len: u64,
    pub sectors: u64,
}

/// The trailer in `b`, if it is one.
pub open spec fn koly_in(b: Seq<u8>) -> Option<Koly> {
    if b.len() >= 512 && holds(b, 0, KOLY@) && be32_at(b, 4) == 4 && be32_at(b, 8) == 512 {
        Some(
            Koly {
                data_fork_offset: be64_at(b, 24),
                rsrc_offset: be64_at(b, 40),
                rsrc_len: be64_at(b, 48),
                segment_count: be32_at(b, 60),
                xml_offset: be64_at(b, 216),
                xml_len: be64_at(b, 224),
                sectors: be64_at(b, 492),
            },
        )
    } else {
        None
    }
}

pub fn parse_koly(b: &[u8]) -> (r: Option<Koly>)
    ensures
        r == koly_in(b@),
{
    if b.len() >= 512 && has_bytes(b, 0, &KOLY) && be32(b, 4) == 4 && be32(b, 8) == 512 {
        Some(
            Koly {
                data_fork_offset: be64(b, 24),
                rsrc_offset: be64(b, 40),
                rsrc_len: be64(b, 48),
                segment_count: be32(b, 60),
                xml_offset: be64(b, 216),
                xml_len: be64(b, 224),
                sectors: be64(b, 492),
            },
        )
    } else {
        None
    }
}

/// The trailer at the start of a file, where some old images have it.
pub open spec fn first_koly(src: Layers, file: Seq<u8>) -> Result<Option<Koly>, Fault> {
    match src.read_upto(file, 0, 512) {
        Err(f) => Err(f),
        Ok(b) => match koly_in(b) {
            Some(k) => if k.data_fork_offset == 512 {
                Ok(Some(k))
            } else {
                Ok(None)
            },
            None => Ok(None),
        },
    }
}

/// The trailer, at the end (or, in some old images, at the start).
pub open spec fn koly_of(src: Layers, file: Seq<u8>) -> Result<Option<Koly>, Fault> {
    if src.size >= 512 {
        match src.read(file, (src.size - 512) as u64, 512) {
            Err(f) => Err(f),
            Ok(b) => match koly_in(b) {
                Some(k) => Ok(Some(k)),
                None => first_koly(src, file),
            },
        }
    } else {
        first_koly(src, file)
    }
}

/// The trailer, at the end (or, in some old images, at the start).
pub fn koly(src: &Source, have: &Loaded) -> (r: Result<Option<Koly>, Stop>)
    requires
        src@.wf(),
    ensures
        match r {
            Ok(k) => forall|file: Seq<u8>| #[trigger]
                have.shows(src@, file) ==> koly_of(src@, file) == Ok::<Option<Koly>, Fault>(k),
            Err(Stop::Failed(e)) => forall|file: Seq<u8>| #[trigger]
                have.shows(src@, file) ==> koly_of(src@, file) == Err::<Option<Koly>, Fault>(e@),
            Err(Stop::Need { offset, len }) => have.lacks(src@, offset, len),
        },
{
    if src.size >= 512 {
        match src.read_vec(have, src.size - 512, 512) {
            Ok(b) => {
                if let Some(k) = parse_koly(&b) {
                    return Ok(Some(k));
                }
            },
            Err(s) => {
                return Err(s);
            },
        }
    }
    match src.read_upto(have, 0, 512) {
        Ok(b) => match parse_koly(&b) {
            Some(k) => if k.data_fork_offset == 512 {
                Ok(Some(k))
            } else {
                Ok(None)
            },
            None => Ok(None),
        },
        Err(s) => Err(s),
    }
}

/// Apple's images that can only be refused.
#[derive(Clone, Copy, Debug, PartialEq, Eq, Structural)]
pub enum Refused {
    Encrypted,
    SparseImage,
    SparseBundle,
}

/// What the start of the file says.
pub open spec fn refused_start(head: Seq<u8>) -> Option<Refused> {
    if holds(head, 0, ENCRYPTED@) {
        Some(Refused::Encrypted)
    } else if holds(head, 0, SPARSE_IMAGE@) && 1 <= be32_at(head, 4) <= 15 {
        Some(Refused::SparseImage)
    } else if holds(head, 0, XML@) && contains(head, SPARSE_BUNDLE@) {
        Some(Refused::SparseBundle)
    } else {
        None
    }
}

/// What kind of Apple image this is, when it is one that can only be refused.
pub open spec fn refused_of(src: Layers, file: Seq<u8>, head: Seq<u8>) -> Result<Option<Refused>, Fault> {
    match refused_start(head) {
        Some(r) => Ok(Some(r)),
        None => {
            let n = if src.size <= 1024 {
                src.size as nat
            } else {
                1024
            };
            match src.read(file, (src.size - n) as u64, n) {
                Err(f) => Err(f),
                Ok(tail) => if contains(tail, ENCRYPTED_V1@) {
                    Ok(Some(Refused::Encrypted))
                } else {
                    Ok(None)
                },
            }
        },
    }
}

/// What kind of Apple image this is, when it is one that can only be refused.
pub fn refused(src: &Source, have: &Loaded, head: &[u8]) -> (r: Result<Option<Refused>, Stop>)
    requires
        src@.wf(),
    ensures
        match r {
            Ok(k) => forall|file: Seq<u8>| #[trigger]
                have.shows(src@, file) ==> refused_of(src@, file, head@) == Ok::<Option<Refused>, Fault>(k),
            Err(Stop::Failed(e)) => forall|file: Seq<u8>| #[trigger]
                have.shows(src@, file) ==> refused_of(src@, file, head@) == Err::<Option<Refused>, Fault>(e@),
            Err(Stop::Need { offset, len }) => have.lacks(src@, offset, len),
        },
{
    if has_bytes(head, 0, &ENCRYPTED) {
        return Ok(Some(Refused::Encrypted));
    }
    let sparse: u32 = be32(head, 4);
    if has_bytes(head, 0, &SPARSE_IMAGE) && sparse >= 1 && sparse <= 15 {
        return Ok(Some(Refused::SparseImage));
    }
    if has_bytes(head, 0, &XML) && contains_bytes(head, &SPARSE_BUNDLE) {
        return Ok(Some(Refused::SparseBundle));
    }
    let n: u64 = if src.size <= 1024 {
        src.size
    } else {
        1024
    };
    match src.read_vec(have, src.size - n, n as usize) {
        Ok(tail) => if contains_bytes(&tail, &ENCRYPTED_V1) {
            Ok(Some(Refused::Encrypted))
        } else {
            Ok(None)
        },
        Err(s) => Err(s),
    }
}

/// Is this an Apple disk image? With the disk's size, if the trailer tells.
pub open spec fn detected(src: Layers, file: Seq<u8>, head: Seq<u8>) -> Result<Option<Detected>, Fault> {
    match koly_of(src, file) {
        Err(f) => Err(f),
        Ok(Some(k)) => Ok(
            Some(
                Detected {
                    format: ImageFormat::Dmg,
                    raw_size: if k.segment_count <= 1 {
                        Some(sector_bytes(k.sectors))
                    } else {
                        None
                    },
                },
            ),
        ),
        Ok(None) => match refused_of(src, file, head) {
            Err(f) => Err(f),
            Ok(Some(_)) => Ok(Some(Detected { format: ImageFormat::Dmg, raw_size: None })),
            Ok(None) => Ok(None),
        },
    }
}

pub fn detect(src: &Source, have: &Loaded, head: &[u8]) -> (r: Result<Option<Detected>, Stop>)
    requires
        src@.wf(),
    ensures
        match r {
            Ok(d) => forall|file: Seq<u8>| #[trigger]
                have.shows(src@, file) ==> detected(src@, file, head@) == Ok::<Option<Detected>, Fault>(d),
            Err(Stop::Failed(e)) => forall|file: Seq<u8>| #[trigger]
                have.shows(src@, file) ==> detected(src@, file, head@) == Err::<Option<Detected>, Fault>(e@),
            Err(Stop::Need { offset, len }) => have.lacks(src@, offset, len),
        },
{
    match koly(src, have) {
        Err(s) => Err(s),
        Ok(Some(k)) => {
            let raw_size: Option<u64> = if k.segment_count <= 1 {
                Some(sectors(k.sectors))
            } else {
                None
            };
            Ok(Some(Detected { format: ImageFormat::Dmg, raw_size }))
        },
        Ok(None) => match refused(src, have, head) {
            Err(s) => Err(s),
            Ok(Some(_)) => Ok(Some(Detected { format: ImageFormat::Dmg, raw_size: None })),
            Ok(None) => Ok(None),
        },
    }
}

// The table of contents.

/// A blkx entry: a name and its "mish" block.
pub struct Block {
    pub name: String,
    pub mish: Vec<u8>,
}

/// What a `Block` says.
#[verifier::ext_equal]
pub ghost struct Named {
    pub name: Seq<char>,
    pub mish: Seq<u8>,
}

impl View for Block {
    type V = Named;

    open spec fn view(&self) -> Named {
        Named { name: self.name@, mish: self.mish@ }
    }
}

pub open spec fn named(blocks: Seq<Block>) -> Seq<Named> {
    blocks.map_values(|b: Block| b@)
}

/// The text of the first of the two members that has one.
pub open spec fn entry_text(entry: Tree) -> Option<Seq<char>> {
    let first = match entry.member("Name"@) {
        Some(v) => v.text_of(),
        None => None,
    };
    let second = match entry.member("CFName"@) {
        Some(v) => v.text_of(),
        None => None,
    };
    if first is Some {
        first
    } else {
        second
    }
}

/// A blkx entry's name, for messages.
pub open spec fn entry_name(entry: Tree) -> Seq<char> {
    match entry_text(entry) {
        Some(n) => if trim(n).len() > 0 {
            trim(n)
        } else {
            "a partition"@
        },
        None => "a partition"@,
    }
}

/// The first `n` blkx entries. What is not a table is passed over.
pub open spec fn entries_of(list: Seq<Tree>, n: nat) -> Result<Seq<Named>, Fault>
    decreases n,
{
    if n == 0 {
        Ok(Seq::empty())
    } else {
        match entries_of(list, (n - 1) as nat) {
            Err(f) => Err(f),
            Ok(done) => match list[n - 1] {
                Tree::Table(_) => match list[n - 1].member("Data"@) {
                    Some(Tree::Data(d)) => Ok(done.push(Named { name: entry_name(list[n - 1]), mish: d })),
                    _ => Err(bad_fault("the DMG's table of contents is damaged (a blkx without data)"@)),
                },
                _ => Ok(done),
            },
        }
    }
}

/// The blkx list of a table of contents.
pub open spec fn blkx_of(root: Tree) -> Option<Seq<Tree>> {
    match root.member("resource-fork"@) {
        Some(fork) => match fork.member("blkx"@) {
            Some(Tree::List(list)) => Some(list),
            _ => None,
        },
        None => None,
    }
}

/// The blocks in a table of contents, as the property list says.
pub open spec fn contents_of(list: Result<Tree, Seq<char>>) -> Result<Seq<Named>, Fault> {
    match list {
        Err(e) => Err(bad_fault("the DMG's table of contents is damaged ("@ + e + ")"@)),
        Ok(root) => match blkx_of(root) {
            None => Err(bad_fault("the DMG's table of contents has no blkx list"@)),
            Some(list) => entries_of(list, list.len()),
        },
    }
}

fn name_of(entry: &Node) -> (s: String)
    ensures
        s@ == entry_name(entry@),
{
    let first: Option<&str> = match entry.get("Name") {
        Some(v) => v.as_str(),
        None => None,
    };
    let found: Option<&str> = match first {
        Some(n) => Some(n),
        None => match entry.get("CFName") {
            Some(v) => v.as_str(),
            None => None,
        },
    };
    match found {
        Some(n) => {
            let v: Vec<char> = chars(n);
            let t: Vec<char> = trimmed(&v);
            if t.len() > 0 {
                string(&t)
            } else {
                "a partition".to_owned()
            }
        },
        None => "a partition".to_owned(),
    }
}

/// The blocks in a table of contents, as the property list says.
pub fn contents(list: &Result<Node, String>) -> (r: Result<Vec<Block>, Error>)
    ensures
        match r {
            Ok(v) => contents_of(plain_result(*list)) == Ok::<Seq<Named>, Fault>(named(v@)),
            Err(e) => contents_of(plain_result(*list)) == Err::<Seq<Named>, Fault>(e@),
        },
{
    let root: &Node = match list {
        Ok(root) => root,
        Err(e) => {
            let mut s: String = "the DMG's table of contents is damaged (".to_owned();
            s.append(e.as_str());
            s.append(")");
            return Err(bad(s.as_str()));
        },
    };
    let items: Option<&Vec<Node>> = match root.get("resource-fork") {
        Some(fork) => match fork.get("blkx") {
            Some(Node::List(list)) => Some(list),
            _ => None,
        },
        None => None,
    };
    let items: &Vec<Node> = match items {
        Some(list) => list,
        None => {
            return Err(bad("the DMG's table of contents has no blkx list"));
        },
    };
    let mut blocks: Vec<Block> = Vec::new();
    let mut i: usize = 0;
    proof {
        assert(named(blocks@) == Seq::<Named>::empty());
    }
    while i < items.len()
        invariant
            i <= items@.len(),
            *list is Ok,
            blkx_of(list->Ok_0@) == Some(values(items@)),
            entries_of(values(items@), i as nat) == Ok::<Seq<Named>, Fault>(named(blocks@)),
        decreases items@.len() - i,
    {
        let entry: &Node = &items[i];
        assert(values(items@)[i as int] == entry@);
        let ghost before = blocks@;
        if let Node::Table(_) = entry {
            let mish: Vec<u8> = match entry.get("Data") {
                Some(Node::Data(d)) => {
                    let v: Vec<u8> = bytes_at(d.as_slice(), 0, d.len());
                    assert(v@ == d@);
                    v
                },
                _ => {
                    proof {
                        lemma_entries_fail(values(items@), (i + 1) as nat, items@.len());
                    }
                    return Err(bad("the DMG's table of contents is damaged (a blkx without data)"));
                },
            };
            let name: String = name_of(entry);
            blocks.push(Block { name, mish });
            proof {
                assert(named(blocks@) == named(before).push(blocks@.last()@));
            }
        }
        i = i + 1;
    }
    Ok(blocks)
}

proof fn lemma_entries_fail(list: Seq<Tree>, k: nat, n: nat)
    requires
        k <= n,
        entries_of(list, k) is Err,
    ensures
        entries_of(list, n) == entries_of(list, k),
    decreases n,
{
    if k < n {
        lemma_entries_fail(list, k, (n - 1) as nat);
    }
}

proof fn lemma_kept_entries(list: Seq<Tree>, depth: nat, n: nat)
    requires
        n <= list.len(),
    ensures
        entries_of(kept_list(list, depth + 1), n) == entries_of(list, n),
    decreases n,
{
    if n > 0 {
        lemma_kept_entries(list, depth, (n - 1) as nat);
        let e = list[n - 1];
        assert(kept_list(list, depth + 1)[n - 1] == crate::properties::kept(e, depth + 1));
        law_members_are_kept(e, "Data"@, depth);
        law_members_are_kept(e, "Name"@, depth);
        law_members_are_kept(e, "CFName"@, depth);
    }
}

/// How deep a property list is kept makes no difference to the blocks in it.
pub proof fn law_depth_makes_no_difference(list: Result<Tree, Seq<char>>)
    ensures
        contents_of(kept_of(list)) == contents_of(list),
{
    if let Ok(root) = list {
        let n = NESTING as nat;
        law_members_are_kept(root, "resource-fork"@, (n - 1) as nat);
        if let Some(fork) = root.member("resource-fork"@) {
            law_members_are_kept(fork, "blkx"@, (n - 2) as nat);
            if let Some(Tree::List(blkx)) = fork.member("blkx"@) {
                lemma_kept_list(blkx, (n - 3) as nat);
                lemma_kept_entries(blkx, (n - 4) as nat, blkx.len());
            }
        }
    }
}

/// The same with the text of an error.
pub open spec fn plain_result(r: Result<Node, String>) -> Result<Tree, Seq<char>> {
    match r {
        Ok(v) => Ok(v@),
        Err(e) => Err(e@),
    }
}

/// The blocks in the XML table of contents.
pub open spec fn xml_blocks(src: Layers, file: Seq<u8>, k: Koly) -> Result<Seq<Named>, Fault> {
    if k.xml_len > MAX_XML {
        Err(bad_fault("the DMG's table of contents is too big ("@ + size_text_of(k.xml_len as nat) + ")"@))
    } else {
        match src.read(file, k.xml_offset, k.xml_len as nat) {
            Err(f) => Err(f),
            Ok(xml) => contents_of(plist_xml_in(xml)),
        }
    }
}

/// The blocks in the XML table of contents.
pub fn blocks_from_xml(src: &Source, have: &Loaded, k: &Koly) -> (r: Result<Vec<Block>, Stop>)
    requires
        src@.wf(),
    ensures
        match r {
            Ok(v) => forall|file: Seq<u8>| #[trigger]
                have.shows(src@, file) ==> xml_blocks(src@, file, *k) == Ok::<Seq<Named>, Fault>(named(v@)),
            Err(Stop::Failed(e)) => forall|file: Seq<u8>| #[trigger]
                have.shows(src@, file) ==> xml_blocks(src@, file, *k) == Err::<Seq<Named>, Fault>(e@),
            Err(Stop::Need { offset, len }) => have.lacks(src@, offset, len),
        },
{
    if k.xml_len > MAX_XML {
        let mut s: String = "the DMG's table of contents is too big (".to_owned();
        s.append(size_text(k.xml_len).as_str());
        s.append(")");
        return Err(Stop::Failed(bad(s.as_str())));
    }
    let xml: Vec<u8> = match src.read_vec(have, k.xml_offset, k.xml_len as usize) {
        Ok(b) => b,
        Err(s) => {
            return Err(s);
        },
    };
    let list: Result<Node, String> = plist_xml(&xml);
    proof {
        law_depth_makes_no_difference(plist_xml_in(xml@));
        assert(plain_result(list) == kept_of(plist_xml_in(xml@)));
    }
    match contents(&list) {
        Ok(v) => Ok(v),
        Err(e) => Err(Stop::Failed(e)),
    }
}

// The resource fork of old images.

pub open spec fn fork_damaged() -> Fault {
    bad_fault("the DMG's resource fork is damaged"@)
}

/// A name in the map of a resource fork: a length, and so many bytes.
pub open spec fn fork_name(map: Seq<u8>, at: int) -> Seq<char> {
    if 0 <= at < map.len() && at + 1 + map[at] <= map.len() {
        lossy(map.subrange(at + 1, at + 1 + map[at]))
    } else {
        Seq::empty()
    }
}

/// The resource that reference `k` of a list at `refs` points to.
pub open spec fn fork_block(r: Seq<u8>, map: Seq<u8>, names: int, refs: int, k: int) -> Option<Named> {
    let at = 0x1c + refs + 12 * k;
    let reference = map.subrange(at, at + 12);
    let name_at = be16_at(reference, 2);
    let offset = (be32_at(reference, 4) & 0x00ff_ffff) as int;
    let len_at = 0x100 + offset;
    let len = be32_at(r, len_at) as int;
    if len_at + 4 + len > r.len() || offset + 4 + len > be32_at(r, 8) {
        None
    } else {
        Some(
            Named {
                name: if name_at == 0xffff {
                    "a partition"@
                } else {
                    fork_name(map, names + name_at)
                },
                mish: r.subrange(len_at + 4, len_at + 4 + len),
            },
        )
    }
}

/// The first `n` resources of a list.
pub open spec fn fork_list(r: Seq<u8>, map: Seq<u8>, names: int, refs: int, n: nat) -> Option<Seq<Named>>
    decreases n,
{
    if n == 0 {
        Some(Seq::empty())
    } else {
        match fork_list(r, map, names, refs, (n - 1) as nat) {
            None => None,
            Some(done) => match fork_block(r, map, names, refs, n - 1) {
                None => None,
                Some(b) => Some(done.push(b)),
            },
        }
    }
}

/// The blkx resources of the first `n` types.
pub open spec fn fork_types(r: Seq<u8>, map: Seq<u8>, names: int, n: nat) -> Option<Seq<Named>>
    decreases n,
{
    if n == 0 {
        Some(Seq::empty())
    } else {
        match fork_types(r, map, names, (n - 1) as nat) {
            None => None,
            Some(done) => {
                let at = 0x1e + (n - 1) * 8;
                let entry = map.subrange(at, at + 8);
                if !holds(entry, 0, BLKX@) {
                    Some(done)
                } else {
                    let count = be16_at(entry, 4) + 1;
                    let refs = be16_at(entry, 6) as int;
                    if 0x1c + refs + 12 * count > names {
                        None
                    } else {
                        match fork_list(r, map, names, refs, count as nat) {
                            None => None,
                            Some(more) => Some(done + more),
                        }
                    }
                }
            },
        }
    }
}

/// The blkx resources of a classic resource fork.
pub open spec fn fork_of(r: Seq<u8>) -> Option<Seq<Named>> {
    let map_offset = be32_at(r, 4) as int;
    let data_len = be32_at(r, 8) as int;
    let map_len = be32_at(r, 12) as int;
    if be32_at(r, 0) != 0x100 || map_offset != 0x100 + data_len || map_offset + map_len > r.len() || map_len < 0x1e {
        None
    } else {
        let map = r.subrange(map_offset, map_offset + map_len);
        let names = be16_at(map, 0x1a) as int;
        let types = be16_at(map, 0x1c) + 1;
        if be16_at(map, 0x18) != 0x1c || names > map_len || 0x1e + types * 8 > names {
            None
        } else {
            fork_types(r, map, names, types as nat)
        }
    }
}

fn fork_name_text(map: &[u8], at: usize) -> (s: String)
    ensures
        s@ == fork_name(map@, at as int),
{
    if at < map.len() && (map[at] as usize) < map.len() - at {
        let n: usize = map[at] as usize;
        from_utf8_lossy(vstd::slice::slice_subrange(map, at + 1, at + 1 + n))
    } else {
        String::new()
    }
}

fn read_fork_block(r: &[u8], map: &[u8], names: usize, refs: usize, k: usize) -> (b: Option<Block>)
    requires
        0x1c + refs + 12 * k + 12 <= map@.len(),
        names <= 0xffff,
        refs <= 0xffff,
        k <= 0xffff,
        r@.len() <= 0x100_0000,
    ensures
        match b {
            Some(b) => fork_block(r@, map@, names as int, refs as int, k as int) == Some(b@),
            None => fork_block(r@, map@, names as int, refs as int, k as int) is None,
        },
{
    let reference: Vec<u8> = bytes_at(map, 0x1c + refs + 12 * k, 12);
    let name_at: u16 = be16(&reference, 2);
    let masked: u32 = be32(&reference, 4) & 0x00ff_ffff;
    proof {
        let x = be32_at(reference@, 4);
        assert(x & 0x00ff_ffff <= 0x00ff_ffff) by (bit_vector);
    }
    let offset: usize = masked as usize;
    let len_at: usize = 0x100 + offset;
    let len: u64 = be32(r, len_at) as u64;
    if len_at as u64 + 4 + len > r.len() as u64 || offset as u64 + 4 + len > be32(r, 8) as u64 {
        return None;
    }
    let mish: Vec<u8> = bytes_at(r, len_at + 4, len as usize);
    let name: String = if name_at == 0xffff {
        "a partition".to_owned()
    } else {
        fork_name_text(map, names + name_at as usize)
    };
    Some(Block { name, mish })
}

proof fn lemma_list_fails(r: Seq<u8>, map: Seq<u8>, names: int, refs: int, k: nat, n: nat)
    requires
        k <= n,
        fork_list(r, map, names, refs, k) is None,
    ensures
        fork_list(r, map, names, refs, n) is None,
    decreases n,
{
    if k < n {
        lemma_list_fails(r, map, names, refs, k, (n - 1) as nat);
    }
}

proof fn lemma_types_fail(r: Seq<u8>, map: Seq<u8>, names: int, k: nat, n: nat)
    requires
        k <= n,
        fork_types(r, map, names, k) is None,
    ensures
        fork_types(r, map, names, n) is None,
    decreases n,
{
    if k < n {
        lemma_types_fail(r, map, names, k, (n - 1) as nat);
    }
}

/// The blkx resources of a classic resource fork (as 7-Zip reads them).
pub fn fork_blocks(r: &[u8]) -> (v: Option<Vec<Block>>)
    requires
        r@.len() <= 0x100_0000,
    ensures
        match v {
            Some(v) => fork_of(r@) == Some(named(v@)),
            None => fork_of(r@) is None,
        },
{
    let data_offset: u64 = be32(r, 0) as u64;
    let map_offset: u64 = be32(r, 4) as u64;
    let data_len: u64 = be32(r, 8) as u64;
    let map_len: u64 = be32(r, 12) as u64;
    if data_offset != 0x100 || map_offset != data_offset + data_len || map_offset + map_len > r.len() as u64 || map_len
        < 0x1e {
        return None;
    }
    let map_vec: Vec<u8> = bytes_at(r, map_offset as usize, map_len as usize);
    let map: &[u8] = map_vec.as_slice();
    let names: usize = be16(map, 0x1a) as usize;
    let types: usize = be16(map, 0x1c) as usize + 1;
    if be16(map, 0x18) != 0x1c || names > map.len() || 0x1e + types * 8 > names {
        return None;
    }
    let mut blocks: Vec<Block> = Vec::new();
    let mut t: usize = 0;
    proof {
        assert(named(blocks@) == Seq::<Named>::empty());
    }
    while t < types
        invariant
            t <= types <= 0x1_0000,
            r@.len() <= 0x100_0000,
            names <= map@.len(),
            names <= 0xffff,
            0x1e + types * 8 <= names,
            fork_types(r@, map@, names as int, t as nat) == Some(named(blocks@)),
            fork_of(r@) == fork_types(r@, map@, names as int, types as nat),
        decreases types - t,
    {
        let entry: Vec<u8> = bytes_at(map, 0x1e + t * 8, 8);
        let ghost before = blocks@;
        if has_bytes(&entry, 0, &BLKX) {
            let count: usize = be16(&entry, 4) as usize + 1;
            let refs: usize = be16(&entry, 6) as usize;
            if 0x1c + refs + 12 * count > names {
                proof {
                    lemma_types_fail(r@, map@, names as int, (t + 1) as nat, types as nat);
                }
                return None;
            }
            let mut k: usize = 0;
            proof {
                assert(named(before) + Seq::<Named>::empty() == named(before));
            }
            while k < count
                invariant
                    k <= count <= 0x1_0000,
                    t < types,
                    r@.len() <= 0x100_0000,
                    names <= map@.len(),
                    names <= 0xffff,
                    refs <= 0xffff,
                    0x1c + refs + 12 * count <= names,
                    entry@ == map@.subrange(0x1e + t * 8, 0x1e + t * 8 + 8),
                    holds(entry@, 0, BLKX@),
                    count == be16_at(entry@, 4) + 1,
                    refs == be16_at(entry@, 6),
                    fork_types(r@, map@, names as int, t as nat) == Some(named(before)),
                    fork_list(r@, map@, names as int, refs as int, k as nat) is Some,
                    named(blocks@) == named(before) + fork_list(r@, map@, names as int, refs as int, k as nat)->0,
                    fork_of(r@) == fork_types(r@, map@, names as int, types as nat),
                decreases count - k,
            {
                let ghost now = blocks@;
                match read_fork_block(r, map, names, refs, k) {
                    None => {
                        proof {
                            lemma_list_fails(r@, map@, names as int, refs as int, (k + 1) as nat, count as nat);
                            lemma_types_fail(r@, map@, names as int, (t + 1) as nat, types as nat);
                        }
                        return None;
                    },
                    Some(b) => {
                        blocks.push(b);
                        proof {
                            assert(named(blocks@) == named(now).push(b@));
                            let done = fork_list(r@, map@, names as int, refs as int, k as nat)->0;
                            assert(named(before) + done.push(b@) == (named(before) + done).push(b@));
                        }
                    },
                }
                k = k + 1;
            }
        }
        t = t + 1;
    }
    Some(blocks)
}

/// The blocks in the resource fork.
pub open spec fn rsrc_blocks(src: Layers, file: Seq<u8>, k: Koly) -> Result<Seq<Named>, Fault> {
    if !(0x100 <= k.rsrc_len <= 0x100_0000) {
        Err(fork_damaged())
    } else {
        match src.read(file, k.rsrc_offset, k.rsrc_len as nat) {
            Err(f) => Err(f),
            Ok(r) => match fork_of(r) {
                Some(v) => Ok(v),
                None => Err(fork_damaged()),
            },
        }
    }
}

/// The blocks in the resource fork.
pub fn blocks_from_rsrc(src: &Source, have: &Loaded, k: &Koly) -> (r: Result<Vec<Block>, Stop>)
    requires
        src@.wf(),
    ensures
        match r {
            Ok(v) => forall|file: Seq<u8>| #[trigger]
                have.shows(src@, file) ==> rsrc_blocks(src@, file, *k) == Ok::<Seq<Named>, Fault>(named(v@)),
            Err(Stop::Failed(e)) => forall|file: Seq<u8>| #[trigger]
                have.shows(src@, file) ==> rsrc_blocks(src@, file, *k) == Err::<Seq<Named>, Fault>(e@),
            Err(Stop::Need { offset, len }) => have.lacks(src@, offset, len),
        },
{
    if k.rsrc_len < 0x100 || k.rsrc_len > 0x100_0000 {
        return Err(Stop::Failed(bad("the DMG's resource fork is damaged")));
    }
    let r: Vec<u8> = match src.read_vec(have, k.rsrc_offset, k.rsrc_len as usize) {
        Ok(b) => b,
        Err(s) => {
            return Err(s);
        },
    };
    match fork_blocks(&r) {
        Some(v) => Ok(v),
        None => Err(Stop::Failed(bad("the DMG's resource fork is damaged"))),
    }
}

// The disk, assembled.

/// A run of the disk from one chunk.
#[derive(Clone, Copy, Debug, PartialEq, Eq, Structural)]
pub struct Chunk {
    pub start: u64,
    pub len: u64,
    pub kind: u32,
    pub offset: u64,
    pub packed_len: u64,
}

/// A blkx's range of the disk, and the CRC-32 of its data when it has one.
pub struct Checked {
    pub name: String,
    pub start: u64,
    pub end: u64,
    pub crc: Option<u32>,
}

/// What a `Checked` says.
#[verifier::ext_equal]
pub ghost struct Range {
    pub name: Seq<char>,
    pub start: u64,
    pub end: u64,
    pub crc: Option<u32>,
}

impl View for Checked {
    type V = Range;

    open spec fn view(&self) -> Range {
        Range { name: self.name@, start: self.start, end: self.end, crc: self.crc }
    }
}

pub open spec fn ranges(v: Seq<Checked>) -> Seq<Range> {
    v.map_values(|c: Checked| c@)
}

pub open spec fn dmg_fault(what: Seq<char>) -> Fault {
    bad_fault("the DMG is damaged ("@ + what + ")"@)
}

fn damaged(what: &str) -> (e: Error)
    ensures
        e@ == dmg_fault(what@),
{
    let mut s: String = "the DMG is damaged (".to_owned();
    s.append(what);
    s.append(")");
    bad(s.as_str())
}

/// What is known about the kinds of chunks.
#[derive(Clone, Copy, Debug, PartialEq, Eq, Structural)]
pub enum Sort {
    Skip,
    Stop,
    Data,
    Unknown,
}

pub open spec fn sort_of(kind: u32) -> Sort {
    if kind == COMMENT {
        Sort::Skip
    } else if kind == END {
        Sort::Stop
    } else if kind == ZERO || kind == RAW || kind == IGNORE || kind == ADC || kind == ZLIB || kind == BZIP2 || kind
        == LZFSE || kind == LZMA {
        Sort::Data
    } else {
        Sort::Unknown
    }
}

fn sort(kind: u32) -> (s: Sort)
    ensures
        s == sort_of(kind),
{
    if kind == COMMENT {
        Sort::Skip
    } else if kind == END {
        Sort::Stop
    } else if kind == ZERO || kind == RAW || kind == IGNORE || kind == ADC || kind == ZLIB || kind == BZIP2 || kind
        == LZFSE || kind == LZMA {
        Sort::Data
    } else {
        Sort::Unknown
    }
}

/// Where a mish block says that its range is, and where its chunks' data is counted from.
#[derive(Clone, Copy, Debug, PartialEq, Eq, Structural)]
pub struct Place {
    pub first: u64,
    pub start: u64,
    pub end: u64,
    pub fork: u64,
    pub data: u64,
}

/// The chunk that `c` describes; none for an empty one.
#[verifier::opaque]
pub open spec fn chunk_of(c: Seq<u8>, p: Place) -> Result<Option<Chunk>, Fault> {
    let sector = be64_at(c, 8);
    let n = be64_at(c, 16);
    let start = (p.first + sector) * 512;
    let len = n * 512;
    let offset = p.fork + p.data + be64_at(c, 24);
    if p.first + sector > u64::MAX || start > u64::MAX || len > u64::MAX {
        Err(dmg_fault("sector numbers"@))
    } else if len == 0 {
        Ok(None)
    } else if start < p.start || start + len > p.end {
        Err(dmg_fault("a chunk lies outside its partition"@))
    } else if offset > u64::MAX {
        Err(dmg_fault("chunk offsets"@))
    } else {
        Ok(
            Some(
                Chunk {
                    start: start as u64,
                    len: len as u64,
                    kind: be32_at(c, 0),
                    offset: offset as u64,
                    packed_len: be64_at(c, 32),
                },
            ),
        )
    }
}

/// The chunks of a mish block from chunk `i` on, of `count`.
pub open spec fn chunks_from(m: Seq<u8>, p: Place, i: nat, count: nat) -> Result<Seq<Chunk>, Fault>
    decreases count - i,
{
    if i >= count {
        Ok(Seq::empty())
    } else {
        let c = m.subrange(204 + 40 * i as int, 244 + 40 * i as int);
        let kind = be32_at(c, 0);
        match sort_of(kind) {
            Sort::Skip => chunks_from(m, p, i + 1, count),
            Sort::Stop => Ok(Seq::empty()),
            Sort::Unknown => Err(
                unsupported_fault(
                    "this DMG uses a kind of compression DD-GUI doesn't know (0x"@ + hex_wide(kind as nat, 8) + ")"@,
                ),
            ),
            Sort::Data => match chunk_of(c, p) {
                Err(f) => Err(f),
                Ok(one) => match chunks_from(m, p, i + 1, count) {
                    Err(f) => Err(f),
                    Ok(rest) => match one {
                        Some(chunk) => Ok(seq![chunk] + rest),
                        None => Ok(rest),
                    },
                },
            },
        }
    }
}

/// What a blkx entry describes: its range, if it has one, and its chunks.
#[verifier::opaque]
pub open spec fn part_of(fork: u64, b: Named) -> Result<(Seq<Range>, Seq<Chunk>), Fault> {
    let m = b.mish;
    let first = be64_at(m, 8);
    let sectors = be64_at(m, 16);
    let count = be32_at(m, 200);
    if m.len() < 204 || !holds(m, 0, MISH@) || be32_at(m, 4) != 1 {
        Err(dmg_fault("a blkx entry isn't a mish block"@))
    } else if 204 + count * 40 > m.len() {
        Err(dmg_fault("a mish block is cut short"@))
    } else if first * 512 > u64::MAX || first + sectors > u64::MAX || (first + sectors) * 512 > u64::MAX {
        Err(dmg_fault("sector numbers"@))
    } else {
        let p = Place {
            first,
            start: (first * 512) as u64,
            end: ((first + sectors) * 512) as u64,
            fork,
            data: be64_at(m, 24),
        };
        let crc = if be32_at(m, 64) == 2 && be32_at(m, 68) == 32 {
            Some(be32_at(m, 72))
        } else {
            None
        };
        let range = if p.end > p.start {
            seq![Range { name: b.name, start: p.start, end: p.end, crc }]
        } else {
            Seq::empty()
        };
        match chunks_from(m, p, 0, count as nat) {
            Err(f) => Err(f),
            Ok(chunks) => Ok((range, chunks)),
        }
    }
}

/// What the first `n` blkx entries describe, in their order.
pub open spec fn parts_of(fork: u64, blocks: Seq<Named>, n: nat) -> Result<(Seq<Range>, Seq<Chunk>), Fault>
    decreases n,
{
    if n == 0 {
        Ok((Seq::empty(), Seq::empty()))
    } else {
        match parts_of(fork, blocks, (n - 1) as nat) {
            Err(f) => Err(f),
            Ok((ranges, chunks)) => match part_of(fork, blocks[n - 1]) {
                Err(f) => Err(f),
                Ok((r, c)) => Ok((ranges + r, chunks + c)),
            },
        }
    }
}

/// `v`, which is in order of the starts, with `c` in its place: after those that start where
/// it does.
pub open spec fn insert_chunk(v: Seq<Chunk>, c: Chunk) -> Seq<Chunk>
    decreases v.len(),
{
    if v.len() == 0 || v.last().start <= c.start {
        v.push(c)
    } else {
        insert_chunk(v.drop_last(), c).push(v.last())
    }
}

/// Some chunks in order of their starts.
pub open spec fn by_start(v: Seq<Chunk>) -> Seq<Chunk>
    decreases v.len(),
{
    if v.len() == 0 {
        v
    } else {
        insert_chunk(by_start(v.drop_last()), v.last())
    }
}

pub open spec fn insert_range(v: Seq<Range>, c: Range) -> Seq<Range>
    decreases v.len(),
{
    if v.len() == 0 || v.last().start <= c.start {
        v.push(c)
    } else {
        insert_range(v.drop_last(), c).push(v.last())
    }
}

/// Some ranges in order of their starts.
pub open spec fn ranges_by_start(v: Seq<Range>) -> Seq<Range>
    decreases v.len(),
{
    if v.len() == 0 {
        v
    } else {
        insert_range(ranges_by_start(v.drop_last()), v.last())
    }
}

pub open spec fn chunks_overlap(v: Seq<Chunk>) -> bool {
    exists|i: int| 0 <= i < v.len() - 1 && #[trigger] v[i].start + v[i].len > v[i + 1].start
}

pub open spec fn ranges_overlap(v: Seq<Range>) -> bool {
    exists|i: int| 0 <= i < v.len() - 1 && #[trigger] v[i].end > v[i + 1].start
}

/// The disk that the blkx entries describe: its chunks and its ranges, in order.
pub open spec fn assembled(fork: u64, blocks: Seq<Named>) -> Result<(Seq<Range>, Seq<Chunk>), Fault> {
    match parts_of(fork, blocks, blocks.len()) {
        Err(f) => Err(f),
        Ok((r, c)) => {
            let chunks = by_start(c);
            let ranges = ranges_by_start(r);
            if chunks_overlap(chunks) {
                Err(dmg_fault("chunks overlap"@))
            } else if ranges_overlap(ranges) {
                Err(dmg_fault("partitions overlap"@))
            } else {
                Ok((ranges, chunks))
            }
        },
    }
}

/// A chunk as the checks let it through.
pub open spec fn chunk_ok(c: Chunk) -> bool {
    c.len > 0 && c.start + c.len <= u64::MAX && sort_of(c.kind) == Sort::Data
}

pub open spec fn chunks_ok(v: Seq<Chunk>) -> bool {
    forall|i: int| 0 <= i < v.len() ==> chunk_ok(#[trigger] v[i])
}

fn read_chunk(c: &[u8], p: &Place) -> (r: Result<Option<Chunk>, Error>)
    ensures
        gives(r, chunk_of(c@, *p)),
        r matches Ok(Some(chunk)) ==> chunk.len > 0 && chunk.start + chunk.len <= u64::MAX && chunk.kind == be32_at(
            c@,
            0,
        ),
{
    reveal(chunk_of);
    let sector: u64 = be64(c, 8);
    let n: u64 = be64(c, 16);
    let at: u64 = match p.first.checked_add(sector) {
        Some(s) => s,
        None => {
            return Err(damaged("sector numbers"));
        },
    };
    let start: u64 = match at.checked_mul(512) {
        Some(s) => s,
        None => {
            return Err(damaged("sector numbers"));
        },
    };
    let len: u64 = match n.checked_mul(512) {
        Some(s) => s,
        None => {
            return Err(damaged("sector numbers"));
        },
    };
    if len == 0 {
        return Ok(None);
    }
    let inside: bool = match start.checked_add(len) {
        Some(e) => start >= p.start && e <= p.end,
        None => false,
    };
    if !inside {
        return Err(damaged("a chunk lies outside its partition"));
    }
    let base: u64 = match p.fork.checked_add(p.data) {
        Some(o) => o,
        None => {
            return Err(damaged("chunk offsets"));
        },
    };
    let offset: u64 = match base.checked_add(be64(c, 24)) {
        Some(o) => o,
        None => {
            return Err(damaged("chunk offsets"));
        },
    };
    Ok(Some(Chunk { start, len, kind: be32(c, 0), offset, packed_len: be64(c, 32) }))
}

/// What comes before chunk `i` does not change what comes from it.
spec fn then_chunks(done: Seq<Chunk>, rest: Result<Seq<Chunk>, Fault>) -> Result<Seq<Chunk>, Fault> {
    match rest {
        Ok(r) => Ok(done + r),
        Err(f) => Err(f),
    }
}

fn read_chunks(m: &[u8], p: &Place, count: usize, out: &mut Vec<Chunk>) -> (r: Result<(), Error>)
    requires
        204 + 40 * count <= m@.len(),
        chunks_ok(old(out)@),
    ensures
        match r {
            Ok(()) => chunks_from(m@, *p, 0, count as nat) is Ok && final(out)@ == old(out)@ + chunks_from(
                m@,
                *p,
                0,
                count as nat,
            )->Ok_0 && chunks_ok(final(out)@),
            Err(e) => chunks_from(m@, *p, 0, count as nat) == Err::<Seq<Chunk>, Fault>(e@),
        },
{
    let ghost all = chunks_from(m@, *p, 0, count as nat);
    let ghost mut done: Seq<Chunk> = Seq::empty();
    let mut i: usize = 0;
    proof {
        assert(old(out)@ + done == old(out)@);
        if all is Ok {
            assert(done + all->Ok_0 == all->Ok_0);
        }
    }
    while i < count
        invariant
            i <= count,
            204 + 40 * count <= m@.len(),
            all == chunks_from(m@, *p, 0, count as nat),
            all == then_chunks(done, chunks_from(m@, *p, i as nat, count as nat)),
            out@ == old(out)@ + done,
            chunks_ok(out@),
        decreases count - i,
    {
        assert(204 + 40 * count <= m.len());
        let c: Vec<u8> = bytes_at(m, 204 + 40 * i, 40);
        assert(c@ == m@.subrange(204 + 40 * i, 244 + 40 * i));
        let kind: u32 = be32(&c, 0);
        match sort(kind) {
            Sort::Skip => {},
            Sort::Stop => {
                proof {
                    assert(done + Seq::<Chunk>::empty() == done);
                }
                return Ok(());
            },
            Sort::Unknown => {
                let mut s: String = "this DMG uses a kind of compression DD-GUI doesn't know (0x".to_owned();
                push_hex_wide(&mut s, kind as u64, 8);
                s.append(")");
                return Err(unsupported(s.as_str()));
            },
            Sort::Data => match read_chunk(&c, p) {
                Err(e) => {
                    return Err(e);
                },
                Ok(None) => {},
                Ok(Some(chunk)) => {
                    let ghost before = out@;
                    out.push(chunk);
                    proof {
                        let rest = chunks_from(m@, *p, (i + 1) as nat, count as nat);
                        if rest is Ok {
                            assert(done + (seq![chunk] + rest->Ok_0) == done.push(chunk) + rest->Ok_0);
                        }
                        assert(old(out)@ + done.push(chunk) == (old(out)@ + done).push(chunk));
                        done = done.push(chunk);
                    }
                },
            },
        }
        i = i + 1;
    }
    proof {
        assert(done + Seq::<Chunk>::empty() == done);
    }
    Ok(())
}

/// Puts `c` in its place.
fn insert_sorted(v: &mut Vec<Chunk>, c: Chunk)
    ensures
        final(v)@ == insert_chunk(old(v)@, c),
{
    let mut at: usize = v.len();
    let ghost all = v@;
    proof {
        assert(all.take(all.len() as int) == all);
        assert(insert_chunk(all, c) + Seq::<Chunk>::empty() == insert_chunk(all, c));
        assert(all.skip(all.len() as int) == Seq::<Chunk>::empty());
    }
    while at > 0 && v[at - 1].start > c.start
        invariant
            at <= all.len(),
            v@ == all,
            insert_chunk(all, c) == insert_chunk(all.take(at as int), c) + all.skip(at as int),
        decreases at,
    {
        proof {
            let t = all.take(at as int);
            assert(t.last() == all[at - 1]);
            assert(t.drop_last() == all.take(at - 1));
            assert(all.skip(at - 1) == seq![all[at - 1]] + all.skip(at as int));
            assert(insert_chunk(t.drop_last(), c).push(t.last()) + all.skip(at as int) == insert_chunk(
                t.drop_last(),
                c,
            ) + (seq![all[at - 1]] + all.skip(at as int)));
        }
        at = at - 1;
    }
    v.insert(at, c);
    proof {
        let t = all.take(at as int);
        if at > 0 {
            assert(t.last() == all[at - 1]);
        }
        assert(insert_chunk(t, c) == t.push(c));
        assert(v@ == t.push(c) + all.skip(at as int));
    }
}

fn sorted_chunks(list: &[Chunk]) -> (v: Vec<Chunk>)
    ensures
        v@ == by_start(list@),
{
    let mut v: Vec<Chunk> = Vec::new();
    let mut i: usize = 0;
    proof {
        assert(by_start(list@.take(0)) == Seq::<Chunk>::empty());
    }
    while i < list.len()
        invariant
            i <= list@.len(),
            v@ == by_start(list@.take(i as int)),
        decreases list@.len() - i,
    {
        insert_sorted(&mut v, list[i]);
        proof {
            assert(list@.take(i + 1).drop_last() == list@.take(i as int));
        }
        i = i + 1;
    }
    proof {
        assert(list@.take(list@.len() as int) == list@);
    }
    v
}

/// Puts `c` in its place.
fn insert_checked(v: &mut Vec<Checked>, c: Checked)
    ensures
        ranges(final(v)@) == insert_range(ranges(old(v)@), c@),
{
    let mut at: usize = v.len();
    let ghost all = ranges(v@);
    let ghost it = c@;
    proof {
        assert(all.take(all.len() as int) == all);
        assert(insert_range(all, it) + Seq::<Range>::empty() == insert_range(all, it));
        assert(all.skip(all.len() as int) == Seq::<Range>::empty());
    }
    while at > 0 && v[at - 1].start > c.start
        invariant
            at <= all.len(),
            all == ranges(v@),
            it == c@,
            insert_range(all, it) == insert_range(all.take(at as int), it) + all.skip(at as int),
        decreases at,
    {
        proof {
            let t = all.take(at as int);
            assert(t.last() == all[at - 1]);
            assert(t.drop_last() == all.take(at - 1));
            assert(all.skip(at - 1) == seq![all[at - 1]] + all.skip(at as int));
            assert(insert_range(t.drop_last(), it).push(t.last()) + all.skip(at as int) == insert_range(
                t.drop_last(),
                it,
            ) + (seq![all[at - 1]] + all.skip(at as int)));
        }
        at = at - 1;
    }
    let ghost before = v@;
    v.insert(at, c);
    proof {
        let t = all.take(at as int);
        if at > 0 {
            assert(t.last() == all[at - 1]);
        }
        assert(insert_range(t, it) == t.push(it));
        assert(ranges(v@) == t.push(it) + all.skip(at as int));
    }
}

fn overlapping_chunks(v: &[Chunk]) -> (r: bool)
    requires
        chunks_ok(v@),
    ensures
        r == chunks_overlap(v@),
{
    let mut i: usize = 1;
    while i < v.len()
        invariant
            1 <= i,
            i <= v@.len() || v@.len() == 0,
            chunks_ok(v@),
            forall|k: int| 0 <= k < i - 1 && k < v@.len() - 1 ==> #[trigger] v@[k].start + v@[k].len <= v@[k + 1].start,
        decreases v@.len() - i,
    {
        assert(chunk_ok(v@[i - 1]));
        if v[i].start < v[i - 1].start + v[i - 1].len {
            assert(v@[i - 1].start + v@[i - 1].len > v@[(i - 1) + 1].start);
            return true;
        }
        i = i + 1;
    }
    false
}

fn overlapping_ranges(v: &[Checked]) -> (r: bool)
    ensures
        r == ranges_overlap(ranges(v@)),
{
    let ghost all = ranges(v@);
    let mut i: usize = 1;
    while i < v.len()
        invariant
            1 <= i,
            all == ranges(v@),
            i <= v@.len() || v@.len() == 0,
            forall|k: int| 0 <= k < i - 1 && k < all.len() - 1 ==> #[trigger] all[k].end <= all[k + 1].start,
        decreases v@.len() - i,
    {
        assert(all[i - 1] == v@[i - 1]@ && all[i as int] == v@[i as int]@);
        if v[i].start < v[i - 1].end {
            assert(all[i - 1].end > all[(i - 1) + 1].start);
            return true;
        }
        i = i + 1;
    }
    false
}

proof fn lemma_parts_fail(fork: u64, blocks: Seq<Named>, k: nat, n: nat)
    requires
        k <= n,
        parts_of(fork, blocks, k) is Err,
    ensures
        parts_of(fork, blocks, n) == parts_of(fork, blocks, k),
    decreases n,
{
    if k < n {
        lemma_parts_fail(fork, blocks, k, (n - 1) as nat);
    }
}

proof fn lemma_insert_ok(v: Seq<Chunk>, c: Chunk)
    requires
        chunks_ok(v),
        chunk_ok(c),
    ensures
        chunks_ok(insert_chunk(v, c)),
    decreases v.len(),
{
    if v.len() > 0 && v.last().start > c.start {
        assert(chunk_ok(v[v.len() - 1]));
        assert(chunks_ok(v.drop_last())) by {
            assert forall|i: int| 0 <= i < v.drop_last().len() implies chunk_ok(#[trigger] v.drop_last()[i]) by {
                assert(chunk_ok(v[i]));
            }
        }
        lemma_insert_ok(v.drop_last(), c);
    }
}

proof fn lemma_sorted_ok(v: Seq<Chunk>)
    requires
        chunks_ok(v),
    ensures
        chunks_ok(by_start(v)),
    decreases v.len(),
{
    if v.len() > 0 {
        assert(chunk_ok(v[v.len() - 1]));
        assert(chunks_ok(v.drop_last())) by {
            assert forall|i: int| 0 <= i < v.drop_last().len() implies chunk_ok(#[trigger] v.drop_last()[i]) by {
                assert(chunk_ok(v[i]));
            }
        }
        lemma_sorted_ok(v.drop_last());
        lemma_insert_ok(by_start(v.drop_last()), v.last());
    }
}

/// One blkx entry: adds its range and its chunks.
fn add_part(fork: u64, name: String, m: &[u8], found: &mut Vec<Chunk>, range: &mut Option<Checked>) -> (r: Result<
    (),
    Error,
>)
    requires
        chunks_ok(old(found)@),
    ensures
        match r {
            Ok(()) => {
                &&& part_of(fork, (Named { name: name@, mish: m@ })) is Ok
                &&& final(found)@ == old(found)@ + (part_of(fork, (Named { name: name@, mish: m@ }))->Ok_0).1
                &&& chunks_ok(final(found)@)
                &&& (part_of(fork, (Named { name: name@, mish: m@ }))->Ok_0).0 == (match *final(range) {
                    Some(c) => seq![c@],
                    None => Seq::<Range>::empty(),
                })
                &&& *final(range) matches Some(c) ==> c.start < c.end
            },
            Err(e) => part_of(fork, (Named { name: name@, mish: m@ })) == Err::<(Seq<Range>, Seq<Chunk>), Fault>(e@),
        },
{
    reveal(part_of);
    if m.len() < 204 || !has_bytes(m, 0, &MISH) || be32(m, 4) != 1 {
        return Err(damaged("a blkx entry isn't a mish block"));
    }
    let first: u64 = be64(m, 8);
    let count_sectors: u64 = be64(m, 16);
    let data: u64 = be64(m, 24);
    let count: u64 = be32(m, 200) as u64;
    if 204 + count * 40 > m.len() as u64 {
        return Err(damaged("a mish block is cut short"));
    }
    let start: u64 = match first.checked_mul(512) {
        Some(s) => s,
        None => {
            return Err(damaged("sector numbers"));
        },
    };
    let last: u64 = match first.checked_add(count_sectors) {
        Some(s) => s,
        None => {
            return Err(damaged("sector numbers"));
        },
    };
    let end: u64 = match last.checked_mul(512) {
        Some(s) => s,
        None => {
            return Err(damaged("sector numbers"));
        },
    };
    let crc: Option<u32> = if be32(m, 64) == 2 && be32(m, 68) == 32 {
        Some(be32(m, 72))
    } else {
        None
    };
    *range = if end > start {
        Some(Checked { name, start, end, crc })
    } else {
        None
    };
    read_chunks(m, &Place { first, start, end, fork, data }, count as usize, found)
}

/// Puts the disk together.
pub fn assemble(k: &Koly, blocks: Vec<Block>) -> (r: Result<(Vec<Checked>, Chunks), Error>)
    ensures
        match r {
            Ok((checked, chunks)) => {
                &&& assembled(k.data_fork_offset, named(blocks@)) == Ok::<(Seq<Range>, Seq<Chunk>), Fault>(
                    (ranges(checked@), chunks.chunks@),
                )
                &&& chunks.wf()
                &&& chunks.next == 0
                &&& chunks.pos == 0
                &&& ranges_ok(ranges(checked@))
                &&& !chunks_overlap(chunks.chunks@)
            },
            Err(e) => assembled(k.data_fork_offset, named(blocks@)) == Err::<(Seq<Range>, Seq<Chunk>), Fault>(e@),
        },
{
    let fork: u64 = k.data_fork_offset;
    let ghost all = named(blocks@);
    let mut found: Vec<Chunk> = Vec::new();
    let mut checked: Vec<Checked> = Vec::new();
    let ghost mut listed: Seq<Range> = Seq::empty();
    let n: usize = blocks.len();
    let mut i: usize = 0;
    proof {
        assert(ranges(checked@) == ranges_by_start(Seq::empty()));
    }
    while i < n
        invariant
            i <= n,
            n == blocks@.len(),
            n == all.len(),
            fork == k.data_fork_offset,
            all == named(blocks@),
            parts_of(fork, all, i as nat) == Ok::<(Seq<Range>, Seq<Chunk>), Fault>((listed, found@)),
            chunks_ok(found@),
            ranges(checked@) == ranges_by_start(listed),
            forall|i: int|
                0 <= i < ranges(checked@).len() ==> (#[trigger] ranges(checked@)[i]).start < ranges(checked@)[i].end,
        decreases n - i,
    {
        let b: &Block = &blocks[i];
        proof {
            assert(b@ == all[i as int]);
        }
        let mut range: Option<Checked> = None;
        match add_part(fork, b.name.as_str().to_owned(), &b.mish, &mut found, &mut range) {
            Err(e) => {
                proof {
                    lemma_parts_fail(fork, all, (i + 1) as nat, n as nat);
                    assert(parts_of(fork, all, all.len()) == Err::<(Seq<Range>, Seq<Chunk>), Fault>(e@));
                }
                return Err(e);
            },
            Ok(()) => {},
        }
        match range {
            Some(c) => {
                let ghost it = c@;
                proof {
                    lemma_range_insert(ranges(checked@), it);
                }
                insert_checked(&mut checked, c);
                proof {
                    assert(listed.push(it).drop_last() == listed);
                    assert(listed + seq![it] == listed.push(it));
                    listed = listed.push(it);
                }
            },
            None => {
                proof {
                    assert(listed + Seq::<Range>::empty() == listed);
                }
            },
        }
        i = i + 1;
    }
    let chunks: Vec<Chunk> = sorted_chunks(&found);
    proof {
        lemma_sorted_ok(found@);
    }
    if overlapping_chunks(&chunks) {
        return Err(damaged("chunks overlap"));
    }
    if overlapping_ranges(&checked) {
        return Err(damaged("partitions overlap"));
    }
    proof {
        lemma_ranges_apart(ranges(checked@));
    }
    Ok((checked, Chunks { chunks, next: 0, pos: 0 }))
}

/// The disk's chunks, in order.
pub struct Chunks {
    pub chunks: Vec<Chunk>,
    pub next: usize,
    /// Where the pieces handed out so far end.
    pub pos: u64,
}

/// What a chunk is made of.
pub open spec fn chunk_piece(c: Chunk) -> Result<Piece, Fault> {
    if c.kind == ZERO || c.kind == IGNORE {
        Ok(Piece { len: c.len, run: Run::Zeros })
    } else if c.kind == RAW {
        if c.packed_len < c.len {
            Err(bad_fault("the DMG is damaged (a raw chunk is too short)"@))
        } else {
            Ok(Piece { len: c.len, run: Run::Stored(c.offset) })
        }
    } else if c.len > MAX_BLOCK || c.packed_len > MAX_BLOCK {
        let most = if c.len >= c.packed_len {
            c.len
        } else {
            c.packed_len
        };
        Err(
            bad_fault(
                "the DMG has a compressed chunk of "@ + size_text_of(most as nat) + ", more than DD-GUI handles"@,
            ),
        )
    } else {
        Ok(
            Piece {
                len: c.len,
                run: Run::Packed(
                    Packed {
                        offset: c.offset,
                        len: c.packed_len as u32,
                        codec: if c.kind == ADC {
                            Codec::Adc
                        } else if c.kind == ZLIB {
                            Codec::Zlib
                        } else if c.kind == BZIP2 {
                            Codec::Bzip2
                        } else if c.kind == LZFSE {
                            Codec::Lzfse
                        } else {
                            Codec::Xz
                        },
                        size: c.len as u32,
                        short_ok: false,
                    },
                ),
            },
        )
    }
}

fn piece_of(c: &Chunk) -> (r: Result<Piece, Error>)
    ensures
        gives(r, chunk_piece(*c)),
{
    if c.kind == ZERO || c.kind == IGNORE {
        return Ok(Piece::zeros(c.len));
    }
    if c.kind == RAW {
        if c.packed_len < c.len {
            return Err(bad("the DMG is damaged (a raw chunk is too short)"));
        }
        return Ok(Piece::stored(c.offset, c.len));
    }
    let codec: Codec = if c.kind == ADC {
        Codec::Adc
    } else if c.kind == ZLIB {
        Codec::Zlib
    } else if c.kind == BZIP2 {
        Codec::Bzip2
    } else if c.kind == LZFSE {
        Codec::Lzfse
    } else {
        Codec::Xz
    };
    if c.len > MAX_BLOCK as u64 || c.packed_len > MAX_BLOCK as u64 {
        let mut s: String = "the DMG has a compressed chunk of ".to_owned();
        s.append(size_text(if c.len >= c.packed_len {
            c.len
        } else {
            c.packed_len
        }).as_str());
        s.append(", more than DD-GUI handles");
        return Err(bad(s.as_str()));
    }
    Ok(
        Piece {
            len: c.len,
            run: Run::Packed(
                Packed {
                    offset: c.offset,
                    len: c.packed_len as u32,
                    codec,
                    size: c.len as u32,
                    short_ok: false,
                },
            ),
        },
    )
}

impl Layout for Chunks {
    open spec fn wf(self) -> bool {
        chunks_ok(self.chunks@)
    }

    open spec fn step(self, src: Layers, file: Seq<u8>) -> Result<Option<(Piece, Self)>, Fault> {
        if self.next >= self.chunks@.len() {
            Ok(None)
        } else {
            let c = self.chunks@[self.next as int];
            if c.start > self.pos {
                // Between partitions (or chunks): zeros.
                Ok(
                    Some(
                        (
                            Piece { len: (c.start - self.pos) as u64, run: Run::Zeros },
                            Chunks { pos: c.start, ..self },
                        ),
                    ),
                )
            } else {
                match chunk_piece(c) {
                    Err(f) => Err(f),
                    Ok(p) => Ok(
                        Some((p, Chunks { next: (self.next + 1) as usize, pos: (c.start + c.len) as u64, ..self })),
                    ),
                }
            }
        }
    }

    fn next(&mut self, src: &Source, have: &Loaded) -> (r: Result<Option<Piece>, Stop>) {
        if self.next >= self.chunks.len() {
            return Ok(None);
        }
        let c: Chunk = self.chunks[self.next];
        assert(chunk_ok(self.chunks@[self.next as int]));
        if c.start > self.pos {
            let gap: u64 = c.start - self.pos;
            self.pos = c.start;
            return Ok(Some(Piece::zeros(gap)));
        }
        match piece_of(&c) {
            Ok(p) => {
                self.next = self.next + 1;
                self.pos = c.start + c.len;
                Ok(Some(p))
            },
            Err(e) => Err(Stop::Failed(e)),
        }
    }
}

/// Sorting keeps the chunks that there are, and puts them in order of their starts.
pub proof fn law_chunks_sorted(v: Seq<Chunk>)
    ensures
        by_start(v).to_multiset() == v.to_multiset(),
        forall|i: int, j: int|
            0 <= i < j < by_start(v).len() ==> (#[trigger] by_start(v)[i]).start <= (#[trigger] by_start(v)[j]).start,
    decreases v.len(),
{
    if v.len() > 0 {
        law_chunks_sorted(v.drop_last());
        lemma_insert_sorts(by_start(v.drop_last()), v.last());
        assert(v.drop_last().push(v.last()) == v);
        broadcast use vstd::seq_lib::group_to_multiset_ensures;

        assert(v.to_multiset() == v.drop_last().to_multiset().insert(v.last()));
    }
}

proof fn lemma_insert_sorts(v: Seq<Chunk>, c: Chunk)
    requires
        forall|i: int, j: int| 0 <= i < j < v.len() ==> (#[trigger] v[i]).start <= (#[trigger] v[j]).start,
    ensures
        insert_chunk(v, c).to_multiset() == v.to_multiset().insert(c),
        insert_chunk(v, c).len() == v.len() + 1,
        forall|i: int, j: int|
            0 <= i < j < insert_chunk(v, c).len() ==> (#[trigger] insert_chunk(v, c)[i]).start <= (#[trigger]
            insert_chunk(v, c)[j]).start,
        forall|i: int|
            0 <= i < insert_chunk(v, c).len() ==> (#[trigger] insert_chunk(v, c)[i]).start <= c.start || (v.len() > 0
                && insert_chunk(v, c)[i].start <= v.last().start),
    decreases v.len(),
{
    broadcast use vstd::seq_lib::group_to_multiset_ensures;

    if v.len() > 0 && v.last().start > c.start {
        let rest = v.drop_last();
        assert forall|i: int, j: int| 0 <= i < j < rest.len() implies (#[trigger] rest[i]).start <= (#[trigger] rest[j]).start by {
            assert(v[i].start <= v[j].start);
        }
        lemma_insert_sorts(rest, c);
        assert(rest.push(v.last()) == v);
        let w = insert_chunk(rest, c);
        assert(insert_chunk(v, c) == w.push(v.last()));
        assert(w.push(v.last()).to_multiset() == w.to_multiset().insert(v.last()));
        assert(v.to_multiset() == rest.to_multiset().insert(v.last()));
        assert(rest.to_multiset().insert(c).insert(v.last()) =~= rest.to_multiset().insert(v.last()).insert(c));
        if rest.len() > 0 {
            assert(v[v.len() - 2].start <= v[v.len() - 1].start);
        }
    } else {
        assert(insert_chunk(v, c) == v.push(c));
        if v.len() > 0 {
            assert forall|i: int| 0 <= i < v.len() implies (#[trigger] v[i]).start <= c.start by {
                if i < v.len() - 1 {
                    assert(v[i].start <= v[v.len() - 1].start);
                }
            }
        }
    }
}

// The checksums.

/// A run of the disk that checksums leave out.
#[derive(Clone, Copy, Debug, PartialEq, Eq, Structural)]
pub struct Hole {
    pub start: u64,
    pub end: u64,
}

pub open spec fn in_hole(holes: Seq<Hole>, pos: int) -> bool {
    exists|i: int| 0 <= i < holes.len() && (#[trigger] holes[i]).start <= pos < holes[i].end
}

/// The bytes of the disk from `from` to `to` that are in no hole.
pub open spec fn kept(disk: Seq<u8>, holes: Seq<Hole>, from: int, to: int) -> Seq<u8>
    decreases to - from,
{
    if to <= from {
        Seq::empty()
    } else if in_hole(holes, to - 1) {
        kept(disk, holes, from, to - 1)
    } else {
        kept(disk, holes, from, to - 1).push(disk[to - 1])
    }
}

/// Does the data of a range match its checksum? Like 7-Zip, chunks of type 2 ("ignore") are
/// left out of it; the CRC over everything is accepted too.
pub open spec fn matches_crc(r: Range, disk: Seq<u8>, holes: Seq<Hole>) -> bool {
    r.crc matches Some(want) ==> crc32_of(0, kept(disk, holes, r.start as int, r.end as int)) == want || crc32_of(
        0,
        disk.subrange(r.start as int, r.end as int),
    ) == want
}

pub open spec fn mismatch(name: Seq<char>) -> Fault {
    bad_fault("the DMG is damaged: the data of "@ + name + " doesn't match its checksum"@)
}

/// The runs that checksums leave out.
pub open spec fn holes_of(chunks: Seq<Chunk>) -> Seq<Hole>
    decreases chunks.len(),
{
    if chunks.len() == 0 {
        Seq::empty()
    } else {
        let c = chunks.last();
        let before = holes_of(chunks.drop_last());
        if c.kind == IGNORE {
            before.push(Hole { start: c.start, end: (c.start + c.len) as u64 })
        } else {
            before
        }
    }
}

/// Checks each blkx's CRC-32 as the disk goes by.
pub struct Crcs {
    pub blocks: Vec<Checked>,
    pub ignored: Vec<Hole>,
    pub pos: u64,
    pub block: usize,
    pub ignore: usize,
    pub all: u32,
    pub data: u32,
    /// The disk so far.
    pub seen: Ghost<Seq<u8>>,
}

pub open spec fn ranges_ok(v: Seq<Range>) -> bool {
    &&& forall|i: int| 0 <= i < v.len() ==> (#[trigger] v[i]).start < v[i].end
    &&& forall|i: int, j: int| 0 <= i < j < v.len() ==> (#[trigger] v[i]).end <= (#[trigger] v[j]).start
}

pub open spec fn holes_ok(v: Seq<Hole>) -> bool {
    &&& forall|i: int| 0 <= i < v.len() ==> (#[trigger] v[i]).start < v[i].end
    &&& forall|i: int, j: int| 0 <= i < j < v.len() ==> (#[trigger] v[i]).end <= (#[trigger] v[j]).start
}

impl Crcs {
    pub open spec fn wf(&self) -> bool {
        let v = ranges(self.blocks@);
        &&& ranges_ok(v)
        &&& holes_ok(self.ignored@)
        &&& self.pos == self.seen@.len()
        &&& self.block <= v.len()
        &&& self.ignore <= self.ignored@.len()
        &&& forall|i: int| 0 <= i < self.block ==> (#[trigger] v[i]).end <= self.pos
        &&& forall|i: int| self.block <= i < v.len() ==> (#[trigger] v[i]).end > self.pos
        &&& forall|i: int| 0 <= i < self.ignore ==> (#[trigger] self.ignored@[i]).end <= self.pos
        &&& self.sums_ok()
    }

    /// Are the sums those of the range that goes by?
    pub open spec fn sums_ok(&self) -> bool {
        let v = ranges(self.blocks@);
        if self.block < v.len() && v[self.block as int].start <= self.pos && v[self.block as int].crc is Some {
            let from = v[self.block as int].start as int;
            &&& self.all == crc32_of(0, self.seen@.subrange(from, self.pos as int))
            &&& self.data == crc32_of(0, kept(self.seen@, self.ignored@, from, self.pos as int))
        } else {
            self.all == 0 && self.data == 0
        }
    }

    /// Does range `i` match the disk's data?
    pub open spec fn good(&self, i: int, disk: Seq<u8>) -> bool {
        matches_crc(ranges(self.blocks@)[i], disk, self.ignored@)
    }

    pub fn new(blocks: Vec<Checked>, ignored: Vec<Hole>) -> (c: Crcs)
        requires
            ranges_ok(ranges(blocks@)),
            holes_ok(ignored@),
        ensures
            c.wf(),
            c.blocks == blocks,
            c.ignored == ignored,
            c.block == 0,
            c.seen@ == Seq::<u8>::empty(),
    {
        let c: Crcs = Crcs {
            blocks,
            ignored,
            pos: 0,
            block: 0,
            ignore: 0,
            all: 0,
            data: 0,
            seen: Ghost(Seq::empty()),
        };
        proof {
            let v = ranges(c.blocks@);
            assert forall|i: int| 0 <= i < v.len() implies (#[trigger] v[i]).end > 0 by {
                assert(v[i].start < v[i].end);
            }
            lemma_crc_of_nothing();
            if v.len() > 0 && v[0].start == 0 {
                assert(c.seen@.subrange(0, 0) == Seq::<u8>::empty());
                assert(kept(c.seen@, c.ignored@, 0, 0) == Seq::<u8>::empty());
            }
        }
        c
    }

    /// Skips bytes before the range that goes by next.
    fn skip(&mut self, rest: &[u8]) -> (n: usize)
        requires
            old(self).wf(),
            rest@.len() > 0,
            old(self).seen@.len() + rest@.len() <= u64::MAX,
            old(self).block < old(self).blocks@.len(),
            old(self).pos < old(self).blocks@[old(self).block as int].start,
        ensures
            final(self).wf(),
            0 < n <= rest@.len(),
            final(self).seen@ == old(self).seen@ + rest@.take(n as int),
            final(self).blocks == old(self).blocks,
            final(self).ignored == old(self).ignored,
            final(self).block == old(self).block,
    {
        let ghost v = ranges(self.blocks@);
        let b_start: u64 = self.blocks[self.block].start;
        assert(v[self.block as int] == self.blocks@[self.block as int]@);
        let n: usize = if b_start - self.pos <= rest.len() as u64 {
            (b_start - self.pos) as usize
        } else {
            rest.len()
        };
        self.pos = self.pos + n as u64;
        proof {
            self.seen@ = self.seen@ + rest@.take(n as int);
            assert forall|i: int| self.block <= i < v.len() implies (#[trigger] v[i]).end > self.pos by {
                assert(v[i].start < v[i].end);
                if i > self.block {
                    assert(v[self.block as int].end <= v[i].start);
                    assert(v[self.block as int].start < v[self.block as int].end);
                }
            }
            lemma_crc_of_nothing();
            if self.pos == b_start {
                assert(self.seen@.subrange(b_start as int, b_start as int) == Seq::<u8>::empty());
                assert(kept(self.seen@, self.ignored@, b_start as int, b_start as int) == Seq::<u8>::empty());
            }
        }
        n
    }

    /// Finds the next hole, and how far what stands here goes on: in a hole or not, up to
    /// where.
    fn look(&mut self) -> (r: (bool, u64))
        requires
            old(self).wf(),
        ensures
            final(self).wf(),
            final(self).seen == old(self).seen,
            final(self).blocks == old(self).blocks,
            final(self).ignored == old(self).ignored,
            final(self).block == old(self).block,
            final(self).pos == old(self).pos,
            final(self).all == old(self).all,
            final(self).data == old(self).data,
            r.1 > old(self).pos || r.1 == u64::MAX,
            forall|q: int|
                old(self).pos <= q < r.1 ==> #[trigger] in_hole(old(self).ignored@, q) == r.0,
    {
        while self.ignore < self.ignored.len() && self.ignored[self.ignore].end <= self.pos
            invariant
                self.wf(),
                self.seen == old(self).seen,
                self.blocks == old(self).blocks,
                self.ignored == old(self).ignored,
                self.block == old(self).block,
                self.pos == old(self).pos,
                self.all == old(self).all,
                self.data == old(self).data,
            decreases self.ignored@.len() - self.ignore,
        {
            self.ignore = self.ignore + 1;
        }
        let (hidden, boundary): (bool, u64) = if self.ignore < self.ignored.len() {
            let h: Hole = self.ignored[self.ignore];
            if h.start <= self.pos {
                (true, h.end)
            } else {
                (false, h.start)
            }
        } else {
            (false, u64::MAX)
        };
        proof {
            assert forall|q: int| self.pos <= q < boundary implies #[trigger] in_hole(self.ignored@, q) == hidden by {
                lemma_hole_here(self.ignored@, self.ignore as int, self.pos as int, q);
            }
        }
        (hidden, boundary)
    }

    /// Takes bytes of the range that goes by.
    #[verifier::spinoff_prover]
    #[verifier::rlimit(40)]
    fn run(&mut self, rest: &[u8]) -> (n: usize)
        requires
            old(self).wf(),
            rest@.len() > 0,
            old(self).seen@.len() + rest@.len() <= u64::MAX,
            old(self).block < old(self).blocks@.len(),
            old(self).pos >= old(self).blocks@[old(self).block as int].start,
        ensures
            0 < n <= rest@.len(),
            final(self).seen@ == old(self).seen@ + rest@.take(n as int),
            final(self).blocks == old(self).blocks,
            final(self).ignored == old(self).ignored,
            final(self).block == old(self).block,
            final(self).pos == final(self).seen@.len(),
            final(self).pos <= ranges(old(self).blocks@)[old(self).block as int].end,
            final(self).ignore <= final(self).ignored@.len(),
            forall|i: int| 0 <= i < final(self).ignore ==> (#[trigger] final(self).ignored@[i]).end <= final(self).pos,
            final(self).sums_ok(),
    {
        let ghost v = ranges(self.blocks@);
        let ghost holes = self.ignored@;
        let b_start: u64 = self.blocks[self.block].start;
        let b_end: u64 = self.blocks[self.block].end;
        let summed: bool = self.blocks[self.block].crc.is_some();
        assert(v[self.block as int] == self.blocks@[self.block as int]@);
        assert(v[self.block as int].end > self.pos);
        let (hidden, boundary): (bool, u64) = self.look();
        let stop: u64 = if b_end <= boundary {
            b_end
        } else {
            boundary
        };
        let n: usize = if stop - self.pos <= rest.len() as u64 {
            (stop - self.pos) as usize
        } else {
            rest.len()
        };
        let piece: &[u8] = vstd::slice::slice_subrange(rest, 0, n);
        let ghost seen = self.seen@;
        let ghost next = seen + rest@.take(n as int);
        let ghost p = self.pos as int;
        let ghost was = *self;
        if summed {
            self.all = crc32(self.all, piece);
            if !hidden {
                self.data = crc32(self.data, piece);
            }
        }
        self.pos = self.pos + n as u64;
        proof {
            self.seen@ = next;
            assert(piece@ == rest@.take(n as int));
            assert(next.take(p) == seen);
            if summed {
                let from = b_start as int;
                assert(was.all == crc32_of(0, seen.subrange(from, p)));
                assert(was.data == crc32_of(0, kept(seen, holes, from, p)));
                law_crc32_in_parts(0, seen.subrange(from, p), piece@);
                assert(seen.subrange(from, p) + piece@ == next.subrange(from, p + n));
                lemma_kept_prefix(seen, next, holes, from, p);
                lemma_kept_run(next, holes, from, p, n as nat, hidden);
                assert(next.subrange(p, p + n) == piece@);
                law_crc32_in_parts(0, kept(seen, holes, from, p), piece@);
            }
        }
        n
    }

    /// Takes some bytes, and checks the range that ends with them.
    fn take(&mut self, rest: &[u8]) -> (r: Result<usize, Error>)
        requires
            old(self).wf(),
            rest@.len() > 0,
            old(self).seen@.len() + rest@.len() <= u64::MAX,
        ensures
            final(self).blocks == old(self).blocks,
            final(self).ignored == old(self).ignored,
            match r {
                Ok(n) => {
                    &&& final(self).wf()
                    &&& 0 < n <= rest@.len()
                    &&& final(self).seen@ == old(self).seen@ + rest@.take(n as int)
                    &&& final(self).block == old(self).block || (final(self).block == old(self).block + 1 && old(
                        self,
                    ).good(old(self).block as int, final(self).seen@))
                },
                Err(e) => {
                    let i = old(self).block as int;
                    &&& i < old(self).blocks@.len()
                    &&& final(self).seen@.len() == ranges(old(self).blocks@)[i].end
                    &&& exists|n: int| 0 < n <= rest@.len() && final(self).seen@ == old(self).seen@ + #[trigger] rest@.take(n)
                    &&& !old(self).good(i, final(self).seen@)
                    &&& e@ == mismatch(ranges(old(self).blocks@)[i].name)
                },
            },
    {
        let ghost v = ranges(self.blocks@);
        if self.block >= self.blocks.len() {
            let n: usize = rest.len();
            self.pos = self.pos + n as u64;
            proof {
                self.seen@ = self.seen@ + rest@.take(n as int);
            }
            return Ok(n);
        }
        let ghost here = v[self.block as int];
        assert(here == self.blocks@[self.block as int]@);
        if self.pos < self.blocks[self.block].start {
            return Ok(self.skip(rest));
        }
        let ghost was = *self;
        let n: usize = self.run(rest);
        let b_end: u64 = self.blocks[self.block].end;
        if self.pos != b_end {
            proof {
                assert forall|i: int| self.block <= i < v.len() implies (#[trigger] v[i]).end > self.pos by {
                    if i > self.block {
                        assert(v[self.block as int].end <= v[i].start);
                        assert(v[i].start < v[i].end);
                    }
                }
            }
            return Ok(n);
        }
        let matching: bool = match self.blocks[self.block].crc {
            Some(want) => self.data == want || self.all == want,
            None => true,
        };
        if !matching {
            let mut s: String = "the DMG is damaged: the data of ".to_owned();
            s.append(self.blocks[self.block].name.as_str());
            s.append(" doesn't match its checksum");
            return Err(bad(s.as_str()));
        }
        self.all = 0;
        self.data = 0;
        self.block = self.block + 1;
        proof {
            lemma_crc_of_nothing();
            assert forall|i: int| self.block <= i < v.len() implies (#[trigger] v[i]).end > self.pos by {
                assert(v[self.block - 1].end <= v[i].start);
                assert(v[i].start < v[i].end);
            }
            assert forall|i: int| 0 <= i < self.block implies (#[trigger] v[i]).end <= self.pos by {
                if i < self.block - 1 {
                    assert(v[i].end <= was.pos);
                }
            }
            if self.block < v.len() {
                assert(v[self.block - 1].end <= v[self.block as int].start);
                let from = v[self.block as int].start as int;
                if from <= self.pos {
                    assert(self.seen@.subrange(from, self.pos as int) == Seq::<u8>::empty());
                    assert(kept(self.seen@, self.ignored@, from, self.pos as int) == Seq::<u8>::empty());
                }
            }
        }
        Ok(n)
    }

    /// Takes the next bytes of the disk, and checks the ranges that end in them.
    pub fn update(&mut self, data: &[u8]) -> (r: Result<(), Error>)
        requires
            old(self).wf(),
            old(self).seen@.len() + data@.len() <= u64::MAX,
        ensures
            final(self).blocks == old(self).blocks,
            final(self).ignored == old(self).ignored,
            match r {
                Ok(()) => {
                    &&& final(self).wf()
                    &&& final(self).seen@ == old(self).seen@ + data@
                    &&& old(self).block <= final(self).block
                    &&& forall|i: int| old(self).block <= i < final(self).block ==> #[trigger] old(self).good(
                        i,
                        old(self).seen@ + data@,
                    )
                },
                Err(e) => exists|i: int|
                    {
                        &&& old(self).block <= i < old(self).blocks@.len()
                        &&& ranges(old(self).blocks@)[i].end <= old(self).seen@.len() + data@.len()
                        &&& !#[trigger] old(self).good(i, old(self).seen@ + data@)
                        &&& e@ == mismatch(ranges(old(self).blocks@)[i].name)
                        &&& forall|k: int| old(self).block <= k < i ==> #[trigger] old(self).good(
                            k,
                            old(self).seen@ + data@,
                        )
                    },
            },
    {
        let ghost disk = self.seen@ + data@;
        let ghost start = self.seen@.len() as int;
        let mut at: usize = 0;
        proof {
            assert(disk.take(start) =~= old(self).seen@);
        }
        while at < data.len()
            invariant
                self.wf(),
                self.blocks == old(self).blocks,
                self.ignored == old(self).ignored,
                disk == old(self).seen@ + data@,
                start == old(self).seen@.len(),
                start + data@.len() <= u64::MAX,
                at <= data@.len(),
                self.seen@ == disk.take(start + at),
                old(self).block <= self.block,
                forall|i: int| old(self).block <= i < self.block ==> #[trigger] old(self).good(i, disk),
            decreases data@.len() - at,
        {
            let rest: &[u8] = vstd::slice::slice_subrange(data, at, data.len());
            let ghost was = *self;
            match self.take(rest) {
                Ok(n) => {
                    proof {
                        assert(was.seen@ + rest@.take(n as int) == disk.take(start + at + n));
                        if self.block > was.block {
                            lemma_good_later(*old(self), was.block as int, self.seen@, disk);
                        }
                    }
                    at = at + n;
                },
                Err(e) => {
                    proof {
                        let n = choose|n: int| 0 < n <= rest@.len() && self.seen@ == was.seen@ + #[trigger] rest@.take(n);
                        assert(was.seen@ + rest@.take(n) == disk.take(start + at + n));
                        lemma_good_later(*old(self), was.block as int, self.seen@, disk);
                        assert(!old(self).good(was.block as int, disk));
                    }
                    return Err(e);
                },
            }
        }
        proof {
            assert(disk.take(start + data@.len()) == disk);
        }
        Ok(())
    }
}

/// A range that went by matches, or not, whatever comes after it.
proof fn lemma_good_later(c: Crcs, i: int, seen: Seq<u8>, disk: Seq<u8>)
    requires
        0 <= i < c.blocks@.len(),
        ranges_ok(ranges(c.blocks@)),
        ranges(c.blocks@)[i].end <= seen.len() <= disk.len(),
        disk.take(seen.len() as int) == seen,
    ensures
        c.good(i, seen) == c.good(i, disk),
{
    let r = ranges(c.blocks@)[i];
    lemma_kept_prefix(seen, disk, c.ignored@, r.start as int, r.end as int);
    assert(r.start < r.end);
    assert(disk.subrange(r.start as int, r.end as int) == seen.subrange(r.start as int, r.end as int));
}

proof fn lemma_crc_of_nothing()
    ensures
        crc32_of(0, Seq::<u8>::empty()) == 0,
{
    assert(!!0u32 == 0) by (bit_vector);
}

/// Whether a place before the next hole's end, or its start, is in a hole.
proof fn lemma_hole_here(holes: Seq<Hole>, next: int, p: int, q: int)
    requires
        holes_ok(holes),
        0 <= next <= holes.len(),
        p <= q,
        forall|i: int| 0 <= i < next ==> (#[trigger] holes[i]).end <= p,
        next < holes.len() ==> holes[next].end > p,
        next < holes.len() && holes[next].start <= p ==> q < holes[next].end,
        next < holes.len() && holes[next].start > p ==> q < holes[next].start,
    ensures
        in_hole(holes, q) == (next < holes.len() && holes[next].start <= p),
{
    if next < holes.len() && holes[next].start <= p {
        assert(holes[next].start <= q < holes[next].end);
    } else if in_hole(holes, q) {
        let i = choose|i: int| 0 <= i < holes.len() && (#[trigger] holes[i]).start <= q < holes[i].end;
        if i < next {
            assert(holes[i].end <= p);
        } else if i > next {
            assert(holes[next].end <= holes[i].start);
        }
    }
}

/// More of the disk changes nothing before it.
proof fn lemma_kept_prefix(a: Seq<u8>, b: Seq<u8>, holes: Seq<Hole>, from: int, to: int)
    requires
        0 <= from,
        to <= a.len() <= b.len(),
        b.take(a.len() as int) == a,
    ensures
        kept(a, holes, from, to) == kept(b, holes, from, to),
    decreases to - from,
{
    if to > from {
        lemma_kept_prefix(a, b, holes, from, to - 1);
        assert(b.take(a.len() as int)[to - 1] == b[to - 1]);
    }
}

/// A run that is all in holes, or all outside.
proof fn lemma_kept_run(disk: Seq<u8>, holes: Seq<Hole>, from: int, p: int, n: nat, hidden: bool)
    requires
        0 <= from <= p,
        p + n <= disk.len(),
        forall|q: int| p <= q < p + n ==> #[trigger] in_hole(holes, q) == hidden,
    ensures
        kept(disk, holes, from, p + n) == (if hidden {
            kept(disk, holes, from, p)
        } else {
            kept(disk, holes, from, p) + disk.subrange(p, p + n)
        }),
    decreases n,
{
    if n > 0 {
        lemma_kept_run(disk, holes, from, p, (n - 1) as nat, hidden);
        assert(in_hole(holes, p + n - 1) == hidden);
        if !hidden {
            assert(disk.subrange(p, p + n) == disk.subrange(p, p + n - 1).push(disk[p + n - 1]));
            assert(kept(disk, holes, from, p) + disk.subrange(p, p + n - 1).push(disk[p + n - 1]) == (kept(
                disk,
                holes,
                from,
                p,
            ) + disk.subrange(p, p + n - 1)).push(disk[p + n - 1]));
        }
    } else {
        assert(disk.subrange(p, p) == Seq::<u8>::empty());
        assert(kept(disk, holes, from, p) + Seq::<u8>::empty() == kept(disk, holes, from, p));
    }
}

// Opening.

proof fn lemma_range_insert(v: Seq<Range>, c: Range)
    requires
        forall|i: int| 0 <= i < v.len() ==> (#[trigger] v[i]).start < v[i].end,
        c.start < c.end,
    ensures
        forall|i: int| 0 <= i < insert_range(v, c).len() ==> (#[trigger] insert_range(v, c)[i]).start < insert_range(
            v,
            c,
        )[i].end,
    decreases v.len(),
{
    if v.len() > 0 && v.last().start > c.start {
        let rest = v.drop_last();
        assert(v[v.len() - 1].start < v[v.len() - 1].end);
        assert forall|i: int| 0 <= i < rest.len() implies (#[trigger] rest[i]).start < rest[i].end by {
            assert(v[i].start < v[i].end);
        }
        lemma_range_insert(rest, c);
    }
}

/// Ranges that do not overlap their neighbours overlap none.
proof fn lemma_ranges_apart(v: Seq<Range>)
    requires
        forall|i: int| 0 <= i < v.len() ==> (#[trigger] v[i]).start < v[i].end,
        !ranges_overlap(v),
    ensures
        ranges_ok(v),
{
    assert forall|i: int, j: int| 0 <= i < j < v.len() implies (#[trigger] v[i]).end <= (#[trigger] v[j]).start by {
        lemma_ranges_between(v, i, j);
    }
}

proof fn lemma_ranges_between(v: Seq<Range>, i: int, j: int)
    requires
        forall|i: int| 0 <= i < v.len() ==> (#[trigger] v[i]).start < v[i].end,
        !ranges_overlap(v),
        0 <= i < j < v.len(),
    ensures
        v[i].end <= v[j].start,
    decreases j - i,
{
    assert(!(v[j - 1].end > v[(j - 1) + 1].start));
    if i < j - 1 {
        lemma_ranges_between(v, i, j - 1);
        assert(v[j - 1].start < v[j - 1].end);
    }
}

proof fn lemma_chunks_between(v: Seq<Chunk>, i: int, j: int)
    requires
        chunks_ok(v),
        !chunks_overlap(v),
        0 <= i < j < v.len(),
    ensures
        v[i].start + v[i].len <= v[j].start,
    decreases j - i,
{
    assert(!(v[j - 1].start + v[j - 1].len > v[(j - 1) + 1].start));
    if i < j - 1 {
        lemma_chunks_between(v, i, j - 1);
        assert(chunk_ok(v[j - 1]));
    }
}

/// Holes are in order, as the chunks are.
proof fn lemma_holes(v: Seq<Chunk>, n: int)
    requires
        chunks_ok(v),
        !chunks_overlap(v),
        0 <= n <= v.len(),
    ensures
        holes_ok(holes_of(v.take(n))),
        forall|i: int|
            0 <= i < holes_of(v.take(n)).len() ==> exists|k: int|
                0 <= k < n && (#[trigger] holes_of(v.take(n))[i]).end == (#[trigger] v[k]).start + v[k].len,
    decreases n,
{
    if n > 0 {
        lemma_holes(v, n - 1);
        assert(v.take(n).drop_last() == v.take(n - 1));
        let before = holes_of(v.take(n - 1));
        let c = v[n - 1];
        assert(v.take(n).last() == c);
        assert(chunk_ok(c));
        let now = holes_of(v.take(n));
        if c.kind == IGNORE {
            assert(now == before.push(Hole { start: c.start, end: (c.start + c.len) as u64 }));
            assert forall|i: int, j: int| 0 <= i < j < now.len() implies (#[trigger] now[i]).end <= (#[trigger] now[j]).start by {
                if j == now.len() - 1 {
                    assert(before[i] == now[i]);
                    let k = choose|k: int| 0 <= k < n - 1 && before[i].end == (#[trigger] v[k]).start + v[k].len;
                    lemma_chunks_between(v, k, n - 1);
                }
            }
            assert forall|i: int| 0 <= i < now.len() implies exists|k: int|
                0 <= k < n && (#[trigger] now[i]).end == (#[trigger] v[k]).start + v[k].len by {
                if i == now.len() - 1 {
                    assert(now[i].end == v[n - 1].start + v[n - 1].len);
                } else {
                    assert(before[i] == now[i]);
                    let k = choose|k: int| 0 <= k < n - 1 && before[i].end == (#[trigger] v[k]).start + v[k].len;
                    assert(now[i].end == v[k].start + v[k].len);
                }
            }
        } else {
            assert(now == before);
            assert forall|i: int| 0 <= i < now.len() implies exists|k: int|
                0 <= k < n && (#[trigger] now[i]).end == (#[trigger] v[k]).start + v[k].len by {
                let k = choose|k: int| 0 <= k < n - 1 && before[i].end == (#[trigger] v[k]).start + v[k].len;
                assert(now[i].end == v[k].start + v[k].len);
            }
        }
    }
}

/// The runs that checksums leave out.
fn holes(chunks: &[Chunk]) -> (v: Vec<Hole>)
    requires
        chunks_ok(chunks@),
    ensures
        v@ == holes_of(chunks@),
{
    let mut v: Vec<Hole> = Vec::new();
    let mut i: usize = 0;
    while i < chunks.len()
        invariant
            i <= chunks@.len(),
            chunks_ok(chunks@),
            v@ == holes_of(chunks@.take(i as int)),
        decreases chunks@.len() - i,
    {
        let c: Chunk = chunks[i];
        assert(chunk_ok(chunks@[i as int]));
        proof {
            assert(chunks@.take(i + 1).drop_last() == chunks@.take(i as int));
        }
        if c.kind == IGNORE {
            v.push(Hole { start: c.start, end: c.start + c.len });
        }
        i = i + 1;
    }
    proof {
        assert(chunks@.take(chunks@.len() as int) == chunks@);
    }
    v
}

/// A refused image's name in messages.
pub open spec fn refused_name(r: Refused) -> Seq<char> {
    match r {
        Refused::Encrypted => "encrypted"@,
        Refused::SparseImage => "sparse image"@,
        Refused::SparseBundle => "sparse bundle"@,
    }
}

/// What is said of an image without a trailer.
pub open spec fn no_trailer(r: Option<Refused>) -> Fault {
    match r {
        Some(Refused::Encrypted) => unsupported_fault(
            "this disk image is encrypted, which DD-GUI doesn't support. Open it in Finder (with its password) and make an unencrypted copy: `hdiutil convert in.dmg -format UDZO -o out.dmg`."@,
        ),
        Some(kind) => unsupported_fault(
            "this is a "@ + refused_name(kind)
                + ", which DD-GUI doesn't support. Convert it to a regular disk image first: `hdiutil convert in -format UDZO -o out.dmg`."@,
        ),
        None => bad_fault("the DMG is damaged (its trailer is missing)"@),
    }
}

fn without_trailer(r: Option<Refused>) -> (e: Error)
    ensures
        e@ == no_trailer(r),
{
    match r {
        Some(Refused::Encrypted) => unsupported(
            "this disk image is encrypted, which DD-GUI doesn't support. Open it in Finder (with its password) and make an unencrypted copy: `hdiutil convert in.dmg -format UDZO -o out.dmg`.",
        ),
        Some(kind) => {
            let mut s: String = "this is a ".to_owned();
            s.append(match kind {
                Refused::Encrypted => "encrypted",
                Refused::SparseImage => "sparse image",
                Refused::SparseBundle => "sparse bundle",
            });
            s.append(
                ", which DD-GUI doesn't support. Convert it to a regular disk image first: `hdiutil convert in -format UDZO -o out.dmg`.",
            );
            unsupported(s.as_str())
        },
        None => bad("the DMG is damaged (its trailer is missing)"),
    }
}

/// The blocks that the trailer points to.
pub open spec fn listed(src: Layers, file: Seq<u8>, k: Koly) -> Result<Seq<Named>, Fault> {
    if k.segment_count > 1 {
        Err(
            unsupported_fault(
                "this DMG is one segment of an image split into several files (.dmgpart), which DD-GUI doesn't support. Join them first: `hdiutil convert first.dmg -format UDZO -o whole.dmg`."@,
            ),
        )
    } else if k.xml_len > 0 {
        xml_blocks(src, file, k)
    } else if k.rsrc_len > 0 {
        rsrc_blocks(src, file, k)
    } else {
        Err(bad_fault("the DMG is damaged (it doesn't say where its data is)"@))
    }
}

/// What the file says about its disk: the trailer, the ranges and the chunks.
#[verifier::opaque]
pub open spec fn opened(src: Layers, file: Seq<u8>) -> Result<(Koly, Seq<Range>, Seq<Chunk>), Fault> {
    match src.read_upto(file, 0, 4096) {
        Err(f) => Err(f),
        Ok(head) => match koly_of(src, file) {
            Err(f) => Err(f),
            Ok(None) => match refused_of(src, file, head) {
                Err(f) => Err(f),
                Ok(r) => Err(no_trailer(r)),
            },
            Ok(Some(k)) => match listed(src, file, k) {
                Err(f) => Err(f),
                Ok(blocks) => match assembled(k.data_fork_offset, blocks) {
                    Err(f) => Err(f),
                    Ok((ranges, chunks)) => Ok((k, ranges, chunks)),
                },
            },
        },
    }
}

/// The disk in a DMG: what it holds, and its checksums.
pub struct Disk {
    pub disk: VDisk<Chunks>,
    pub crcs: Crcs,
}

fn list_blocks(src: &Source, have: &Loaded, k: &Koly) -> (r: Result<Vec<Block>, Stop>)
    requires
        src@.wf(),
    ensures
        match r {
            Ok(v) => forall|file: Seq<u8>| #[trigger]
                have.shows(src@, file) ==> listed(src@, file, *k) == Ok::<Seq<Named>, Fault>(named(v@)),
            Err(Stop::Failed(e)) => forall|file: Seq<u8>| #[trigger]
                have.shows(src@, file) ==> listed(src@, file, *k) == Err::<Seq<Named>, Fault>(e@),
            Err(Stop::Need { offset, len }) => have.lacks(src@, offset, len),
        },
{
    if k.segment_count > 1 {
        return Err(
            Stop::Failed(
                unsupported(
                    "this DMG is one segment of an image split into several files (.dmgpart), which DD-GUI doesn't support. Join them first: `hdiutil convert first.dmg -format UDZO -o whole.dmg`.",
                ),
            ),
        );
    }
    if k.xml_len > 0 {
        blocks_from_xml(src, have, k)
    } else if k.rsrc_len > 0 {
        blocks_from_rsrc(src, have, k)
    } else {
        Err(Stop::Failed(bad("the DMG is damaged (it doesn't say where its data is)")))
    }
}

/// Opens the disk in a DMG file of `size` bytes.
pub fn open(size: u64, have: &Loaded) -> (r: Result<Disk, Stop>)
    ensures
        match r {
            Ok(d) => {
                &&& d.wf()
                &&& d.disk.pos == 0
                &&& d.disk.src@ == plain(size)
                &&& d.crcs.block == 0
                &&& forall|file: Seq<u8>| #[trigger]
                    have.shows(plain(size), file) ==> {
                        &&& opened(plain(size), file) is Ok
                        &&& d.disk.size == sector_bytes((opened(plain(size), file)->Ok_0).0.sectors)
                        &&& ranges(d.crcs.blocks@) == (opened(plain(size), file)->Ok_0).1
                        &&& d.crcs.ignored@ == holes_of((opened(plain(size), file)->Ok_0).2)
                        &&& d.disk.layout.chunks@ == (opened(plain(size), file)->Ok_0).2
                        &&& d.disk.layout.next == 0
                        &&& d.disk.layout.pos == 0
                        &&& d.disk.opens(
                            d.disk.layout,
                            plain(size),
                            file,
                        )
                    }
            },
            Err(Stop::Failed(e)) => forall|file: Seq<u8>| #[trigger]
                have.shows(plain(size), file) ==> opened(plain(size), file) == Err::<
                    (Koly, Seq<Range>, Seq<Chunk>),
                    Fault,
                >(e@),
            Err(Stop::Need { offset, len }) => have.lacks(plain(size), offset, len),
        },
{
    reveal(opened);
    let src: Source = Source::new(size);
    let head: Vec<u8> = match src.read_upto(have, 0, 4096) {
        Ok(b) => b,
        Err(s) => {
            return Err(s);
        },
    };
    let k: Koly = match koly(&src, have) {
        Ok(Some(k)) => k,
        Ok(None) => {
            return match refused(&src, have, &head) {
                Ok(r) => Err(Stop::Failed(without_trailer(r))),
                Err(s) => Err(s),
            };
        },
        Err(s) => {
            return Err(s);
        },
    };
    let blocks: Vec<Block> = match list_blocks(&src, have, &k) {
        Ok(b) => b,
        Err(s) => {
            return Err(s);
        },
    };
    let (checked, layout): (Vec<Checked>, Chunks) = match assemble(&k, blocks) {
        Ok(a) => a,
        Err(e) => {
            return Err(Stop::Failed(e));
        },
    };
    let ignored: Vec<Hole> = holes(&layout.chunks);
    proof {
        assert(layout.chunks@.take(layout.chunks@.len() as int) == layout.chunks@);
        lemma_holes(layout.chunks@, layout.chunks@.len() as int);
    }
    let crcs: Crcs = Crcs::new(checked, ignored);
    Ok(Disk { disk: VDisk::new(src, sectors(k.sectors), layout), crcs })
}

impl Disk {
    pub open spec fn wf(&self) -> bool {
        &&& self.disk.wf()
        &&& self.crcs.wf()
        &&& self.crcs.seen@.len() == self.disk.pos
    }

    /// Reads up to `max` bytes of the disk, in order, and checks the ranges that end in
    /// them.
    pub fn read(&mut self, have: &Loaded, max: usize) -> (r: Result<Vec<u8>, Stop>)
        requires
            old(self).wf(),
        ensures
            final(self).disk.src == old(self).disk.src,
            final(self).disk.size == old(self).disk.size,
            final(self).crcs.blocks == old(self).crcs.blocks,
            final(self).crcs.ignored == old(self).crcs.ignored,
            match r {
                Ok(v) => {
                    &&& final(self).wf()
                    &&& final(self).crcs.seen@ == old(self).crcs.seen@ + v@
                    &&& v@.len() <= least(old(self).disk.size - old(self).disk.pos, max as int)
                    &&& v@.len() < least(old(self).disk.size - old(self).disk.pos, max as int) ==> v@.len() > 0
                        && exists|offset: u64, len: usize| have.lacks(old(self).disk.src@, offset, len)
                    &&& forall|file: Seq<u8>| #[trigger]
                        have.shows(old(self).disk.src@, file) ==> old(self).disk.reads_on(v@, &final(self).disk, file)
                    &&& forall|i: int| old(self).crcs.block <= i < final(self).crcs.block ==> #[trigger] old(
                        self,
                    ).crcs.good(i, old(self).crcs.seen@ + v@)
                },
                Err(Stop::Need { offset, len }) => {
                    &&& have.lacks(old(self).disk.src@, offset, len)
                    &&& final(self).wf()
                    &&& final(self).crcs == old(self).crcs
                    &&& forall|file: Seq<u8>| #[trigger]
                        have.shows(old(self).disk.src@, file) ==> final(self).disk.same_as(&old(self).disk, file)
                },
                Err(Stop::Failed(e)) => {
                    ||| old(self).disk.pos < old(self).disk.size && max > 0 && old(self).disk.fails(
                        have,
                        least(old(self).disk.size - old(self).disk.pos, max as int),
                        e@,
                    )
                    ||| exists|v: Seq<u8>, i: int|
                        {
                            &&& v.len() <= least(old(self).disk.size - old(self).disk.pos, max as int)
                            &&& old(self).crcs.block <= i < old(self).crcs.blocks@.len()
                            &&& !#[trigger] old(self).crcs.good(i, old(self).crcs.seen@ + v)
                            &&& e@ == mismatch(ranges(old(self).crcs.blocks@)[i].name)
                            &&& forall|file: Seq<u8>| #[trigger]
                                have.shows(old(self).disk.src@, file) ==> v.len() <= old(self).disk.rest(file).len()
                                    && v == old(self).disk.rest(file).take(v.len() as int)
                        }
                },
            },
    {
        match self.disk.read(have, max) {
            Err(s) => Err(s),
            Ok(v) => {
                match self.crcs.update(&v) {
                    Ok(()) => Ok(v),
                    Err(e) => {
                        proof {
                            assert forall|file: Seq<u8>| #[trigger]
                                have.shows(old(self).disk.src@, file) implies v@.len() <= old(self).disk.rest(
                                file,
                            ).len() && v@ == old(self).disk.rest(file).take(v@.len() as int) by {
                                let rest = self.disk.rest(file);
                                assert((v@ + rest).take(v@.len() as int) == v@);
                            }
                        }
                        Err(Stop::Failed(e))
                    },
                }
            },
        }
    }
}

/// Is that a run of reads that takes the disk in a DMG from its start to its end, its checksums
/// along with it? `disks[i]` is the disk before `reads[i]`.
pub open spec fn runs_checked(disks: Seq<Disk>, reads: Seq<Seq<u8>>, file: Seq<u8>) -> bool {
    &&& disks.len() == reads.len() + 1
    &&& disks[0].wf()
    &&& disks[0].disk.pos == 0
    &&& disks[0].crcs.block == 0
    &&& forall|i: int| #![trigger reads[i]]
        0 <= i < reads.len() ==> {
            &&& disks[i + 1].wf()
            &&& disks[i].disk.reads_on(reads[i], &disks[i + 1].disk, file)
            &&& disks[i + 1].crcs.blocks == disks[i].crcs.blocks
            &&& disks[i + 1].crcs.ignored == disks[i].crcs.ignored
            &&& disks[i + 1].crcs.seen@ == disks[i].crcs.seen@ + reads[i]
            &&& forall|k: int|
                disks[i].crcs.block <= k < disks[i + 1].crcs.block ==> #[trigger] disks[i].crcs.good(
                    k,
                    disks[i + 1].crcs.seen@,
                )
        }
    &&& disks.last().disk.pos == disks[0].disk.size
}

/// The checksums of a DMG see just the bytes that its reads give, in order: all of the disk.
/// Every range that lies on the disk matches its checksum then.
pub proof fn law_checksums_see_the_disk(disks: Seq<Disk>, reads: Seq<Seq<u8>>, file: Seq<u8>)
    requires
        runs_checked(disks, reads, file),
    ensures
        given(reads) == disks[0].disk.rest(file),
        disks.last().crcs.seen@ == given(reads),
        forall|k: int|
            0 <= k < disks[0].crcs.blocks@.len() && ranges(disks[0].crcs.blocks@)[k].end <= disks[0].disk.size
                ==> #[trigger] disks[0].crcs.good(k, given(reads)),
{
    let inner = disks.map_values(|d: Disk| d.disk);
    assert forall|i: int| #![trigger reads[i]] 0 <= i < reads.len() implies inner[i].reads_on(
        reads[i],
        &inner[i + 1],
        file,
    ) by {
        assert(disks[i].disk.reads_on(reads[i], &disks[i + 1].disk, file));
    }
    if reads.len() > 0 {
        assert(disks[reads.len() - 1].disk.reads_on(reads[reads.len() - 1], &disks[reads.len() as int].disk, file));
    }
    assert(disks.last().wf());
    law_reads_make_the_disk(inner, reads, file);
    lemma_checked_so_far(disks, reads, file, reads.len() as int);
    assert(reads.take(reads.len() as int) == reads);
    let end = disks.last().crcs;
    assert forall|k: int|
        0 <= k < disks[0].crcs.blocks@.len() && ranges(disks[0].crcs.blocks@)[k].end
            <= disks[0].disk.size implies #[trigger] disks[0].crcs.good(k, given(reads)) by {
        assert(ranges(end.blocks@)[k].end <= end.pos);
        assert(k < end.block);
    }
}

/// What comes after a range makes no difference to its checksum.
proof fn lemma_still_matches(r: Range, disk: Seq<u8>, more: Seq<u8>, holes: Seq<Hole>)
    requires
        r.start < r.end <= disk.len(),
    ensures
        matches_crc(r, disk + more, holes) == matches_crc(r, disk, holes),
{
    let a = r.start as int;
    let b = r.end as int;
    assert((disk + more).take(disk.len() as int) == disk);
    lemma_kept_prefix(disk, disk + more, holes, a, b);
    assert((disk + more).subrange(a, b) == disk.subrange(a, b));
}

#[verifier::spinoff_prover]
#[verifier::rlimit(40)]
proof fn lemma_checked_so_far(disks: Seq<Disk>, reads: Seq<Seq<u8>>, file: Seq<u8>, n: int)
    requires
        runs_checked(disks, reads, file),
        0 <= n <= reads.len(),
    ensures
        disks[n].wf(),
        disks[n].crcs.blocks == disks[0].crcs.blocks,
        disks[n].crcs.ignored == disks[0].crcs.ignored,
        disks[n].crcs.seen@ == given(reads.take(n)),
        forall|k: int| 0 <= k < disks[n].crcs.block ==> #[trigger] disks[0].crcs.good(k, given(reads.take(n))),
    decreases n,
{
    if n == 0 {
        assert(reads.take(0) == Seq::<Seq<u8>>::empty());
        assert(disks[0].crcs.seen@.len() == disks[0].disk.pos);
        assert(disks[0].crcs.seen@ =~= Seq::<u8>::empty());
    } else {
        lemma_checked_so_far(disks, reads, file, n - 1);
        assert(reads.take(n).drop_last() == reads.take(n - 1));
        let was = disks[n - 1].crcs;
        let now = disks[n].crcs;
        assert(now.seen@ == was.seen@ + reads[n - 1]);
        assert forall|k: int| 0 <= k < now.block implies #[trigger] disks[0].crcs.good(k, now.seen@) by {
            if k < was.block {
                assert(disks[0].crcs.good(k, was.seen@));
                let r = ranges(was.blocks@)[k];
                assert(r.end <= was.pos);
                assert(r.start < r.end);
                lemma_still_matches(r, was.seen@, reads[n - 1], was.ignored@);
            } else {
                assert(was.good(k, now.seen@));
            }
        }
    }
}

// What the disk holds, by the format.

/// Byte `j` of a chunk, by its kind.
pub open spec fn chunk_byte(src: Layers, file: Seq<u8>, c: Chunk, j: int) -> u8 {
    if c.kind == 0 || c.kind == 2 {
        0
    } else if c.kind == 1 {
        src.seen(file, c.offset + j)
    } else {
        let codec = if c.kind == 0x8000_0004 {
            Codec::Adc
        } else if c.kind == 0x8000_0005 {
            Codec::Zlib
        } else if c.kind == 0x8000_0006 {
            Codec::Bzip2
        } else if c.kind == 0x8000_0007 {
            Codec::Lzfse
        } else {
            Codec::Xz
        };
        decoded(codec, src.read_upto(file, c.offset, c.packed_len as nat)->Ok_0, c.len as nat)->Ok_0[j]
    }
}

/// Does a chunk hold place `p` of the disk?
pub open spec fn covers(c: Chunk, p: int) -> bool {
    c.start <= p < c.start + c.len
}

spec fn apart(v: Seq<Chunk>) -> bool {
    forall|i: int, j: int| 0 <= i < j < v.len() ==> (#[trigger] v[i]).start + v[i].len <= (#[trigger] v[j]).start
}

proof fn lemma_apart(v: Seq<Chunk>, i: int, j: int)
    requires
        chunks_ok(v),
        !chunks_overlap(v),
        0 <= i < j < v.len(),
    ensures
        v[i].start + v[i].len <= v[j].start,
    decreases j - i,
{
    assert(v[j - 1].start + v[j - 1].len <= v[j].start);
    if i < j - 1 {
        lemma_apart(v, i, j - 1);
        assert(chunk_ok(v[j - 1]));
    }
}

spec fn disk_byte(src: Layers, file: Seq<u8>, v: Seq<Chunk>, p: int) -> u8 {
    if exists|i: int| 0 <= i < v.len() && covers(#[trigger] v[i], p) {
        let i = choose|i: int| 0 <= i < v.len() && covers(#[trigger] v[i], p);
        chunk_byte(src, file, v[i], p - v[i].start)
    } else {
        0
    }
}

proof fn lemma_disk_byte(src: Layers, file: Seq<u8>, v: Seq<Chunk>, i: int, p: int)
    requires
        apart(v),
        0 <= i < v.len(),
        covers(v[i], p),
    ensures
        disk_byte(src, file, v, p) == chunk_byte(src, file, v[i], p - v[i].start),
{
    let k = choose|k: int| 0 <= k < v.len() && covers(#[trigger] v[k], p);
    assert(covers(v[i], p));
    if k < i {
        assert(v[k].start + v[k].len <= v[i].start);
    }
    if i < k {
        assert(v[i].start + v[i].len <= v[k].start);
    }
}

spec fn stands(m: Chunks, v: Seq<Chunk>, pos: int) -> bool {
    &&& m.chunks@ == v
    &&& m.pos == pos
    &&& m.next <= v.len()
    &&& forall|i: int| 0 <= i < m.next ==> (#[trigger] v[i]).start + v[i].len <= pos
    &&& forall|i: int| m.next <= i < v.len() ==> pos <= (#[trigger] v[i]).start
}

#[verifier::spinoff_prover]
#[verifier::rlimit(60)]
proof fn lemma_leads(m: Chunks, v: Seq<Chunk>, src: Layers, file: Seq<u8>, size: u64, pos: int)
    requires
        chunks_ok(v),
        apart(v),
        stands(m, v, pos),
        0 <= pos < size,
    ensures
        leads(
            m,
            src,
            file,
            size,
            pos,
            |x: Chunks, at: int| stands(x, v, at),
            |p: int| disk_byte(src, file, v, p),
        ),
{
    let byte = |p: int| disk_byte(src, file, v, p);
    if m.next >= v.len() {
        assert forall|p: int| pos <= p < size implies #[trigger] byte(p) == 0 by {
            assert forall|i: int| 0 <= i < v.len() implies !covers(#[trigger] v[i], p) by {}
        }
    } else {
        let c = v[m.next as int];
        assert(chunk_ok(c));
        assert(m.chunks.len() == v.len());
        if let Ok(Some((p, next))) = m.step(src, file) {
            let n = least(p.len as int, size - pos) as nat;
            if c.start > pos {
                assert forall|j: int| 0 <= j < n implies #[trigger] piece_bytes(src, file, pos as u64, p, n)[j] == byte(
                    pos + j,
                ) by {
                    assert forall|i: int| 0 <= i < v.len() implies !covers(#[trigger] v[i], pos + j) by {
                        if i > m.next {
                            assert(v[m.next as int].start + v[m.next as int].len <= v[i].start);
                        }
                    }
                }
                assert(stands(next, v, pos + p.len)) by {
                    assert forall|i: int| next.next <= i < v.len() implies pos + p.len <= (#[trigger] v[i]).start by {
                        if i > m.next {
                            assert(v[m.next as int].start + v[m.next as int].len <= v[i].start);
                        }
                    }
                }
            } else {
                assert(c.start == pos);
                assert forall|j: int| 0 <= j < n && (p.run matches Run::Packed(packed) ==> block_of(
                    src,
                    file,
                    pos as u64,
                    p.len,
                    packed,
                ) is Ok) implies #[trigger] piece_bytes(src, file, pos as u64, p, n)[j] == byte(pos + j) by {
                    lemma_disk_byte(src, file, v, m.next as int, pos + j);
                }
                assert(stands(next, v, pos + p.len)) by {
                    assert forall|i: int| next.next <= i < v.len() implies pos + p.len <= (#[trigger] v[i]).start by {
                        assert(v[m.next as int].start + v[m.next as int].len <= v[i].start);
                    }
                }
            }
        }
    }
}

/// The disk in a DMG, read to its end, has each chunk's data at the chunk's place, and zeros
/// where no chunk is.
pub proof fn law_disk_is_its_chunks(
    disks: Seq<VDisk<Chunks>>,
    reads: Seq<Seq<u8>>,
    file: Seq<u8>,
    src: Layers,
    layout: Chunks,
)
    requires
        runs(disks, reads, file),
        disks[0].src@ == src,
        disks[0].opens(layout, src, file),
        chunks_ok(layout.chunks@),
        !chunks_overlap(layout.chunks@),
        layout.next == 0,
        layout.pos == 0,
    ensures
        given(reads).len() == disks[0].size,
        forall|i: int, p: int|
            0 <= i < layout.chunks@.len() && 0 <= p < disks[0].size && #[trigger] covers(layout.chunks@[i], p)
                ==> given(reads)[p] == chunk_byte(src, file, layout.chunks@[i], p - layout.chunks@[i].start),
        forall|p: int|
            0 <= p < disks[0].size && (forall|i: int|
                0 <= i < layout.chunks@.len() ==> !covers(#[trigger] layout.chunks@[i], p)) ==> #[trigger] given(
                reads,
            )[p] == 0,
{
    let v = layout.chunks@;
    let size = disks[0].size;
    let good = |x: Chunks, at: int| stands(x, v, at);
    let byte = |p: int| disk_byte(src, file, v, p);
    assert forall|i: int, j: int| 0 <= i < j < v.len() implies (#[trigger] v[i]).start + v[i].len <= (
    #[trigger] v[j]).start by {
        lemma_apart(v, i, j);
    }
    assert(good(layout, 0));
    assert forall|m: Chunks, pos: int| #[trigger] good(m, pos) && 0 <= pos < size implies leads(
        m,
        src,
        file,
        size,
        pos,
        good,
        byte,
    ) by {
        lemma_leads(m, v, src, file, size, pos);
    }
    law_disk_holds(disks, reads, file, layout, good, byte);
    assert forall|i: int, p: int| 0 <= i < v.len() && 0 <= p < size && #[trigger] covers(v[i], p) implies given(reads)[p]
        == chunk_byte(src, file, v[i], p - v[i].start) by {
        lemma_disk_byte(src, file, v, i, p);
        assert(given(reads)[p] == byte(p));
    }
    assert forall|p: int|
        0 <= p < size && (forall|i: int| 0 <= i < v.len() ==> !covers(#[trigger] v[i], p)) implies #[trigger] given(
        reads,
    )[p] == 0 by {
        assert(given(reads)[p] == byte(p));
    }
}

/// Is that chunk what entry `i` of a mish block says? Sectors are counted from the block's first,
/// the data from where the fork and the block say.
pub open spec fn says(m: Seq<u8>, fork: u64, i: int, c: Chunk) -> bool {
    let e = m.subrange(204 + 40 * i, 244 + 40 * i);
    &&& c.kind == be_value(e.subrange(0, 4))
    &&& c.start == (be_value(m.subrange(8, 16)) + be_value(e.subrange(8, 16))) * 512
    &&& c.len == be_value(e.subrange(16, 24)) * 512
    &&& c.offset == fork + be_value(m.subrange(24, 32)) + be_value(e.subrange(24, 32))
    &&& c.packed_len == be_value(e.subrange(32, 40))
}

/// The chunks of a mish block are what its entries say, and its range is where it says.
pub proof fn law_chunks_are_what_entries_say(fork: u64, b: Named, k: int)
    ensures
        part_of(fork, b) matches Ok((ranges, chunks)) ==> {
            &&& 0 <= k < chunks.len() ==> exists|i: int|
                0 <= i < be_value(b.mish.subrange(200, 204)) && #[trigger] says(b.mish, fork, i, chunks[k])
            &&& ranges.len() > 0 ==> {
                &&& ranges[0].name == b.name
                &&& ranges[0].start == be_value(b.mish.subrange(8, 16)) * 512
                &&& ranges[0].end == (be_value(b.mish.subrange(8, 16)) + be_value(b.mish.subrange(16, 24))) * 512
            }
        },
{
    reveal(part_of);
    if let Ok((ranges, chunks)) = part_of(fork, b) {
        let m = b.mish;
        law_fields_are_numbers(m, 8);
        law_fields_are_numbers(m, 16);
        law_fields_are_numbers(m, 24);
        law_fields_are_numbers(m, 200);
        if 0 <= k < chunks.len() {
            let first = be64_at(m, 8);
            let p = Place {
                first,
                start: (first * 512) as u64,
                end: ((first + be64_at(m, 16)) * 512) as u64,
                fork,
                data: be64_at(m, 24),
            };
            let i = lemma_entry_of(m, p, fork, 0, be32_at(m, 200) as nat, k);
            assert(says(m, fork, i, chunks[k]));
        }
    }
}

proof fn lemma_entry_of(m: Seq<u8>, p: Place, fork: u64, from: nat, count: nat, k: int) -> (i: int)
    requires
        m.len() >= 204 + 40 * count,
        p.first == be64_at(m, 8),
        p.data == be64_at(m, 24),
        p.fork == fork,
        chunks_from(m, p, from, count) is Ok,
        0 <= k < chunks_from(m, p, from, count)->Ok_0.len(),
    ensures
        from <= i < count,
        says(m, fork, i, chunks_from(m, p, from, count)->Ok_0[k]),
    decreases count - from,
{
    let c = m.subrange(204 + 40 * from as int, 244 + 40 * from as int);
    match sort_of(be32_at(c, 0)) {
        Sort::Skip => lemma_entry_of(m, p, fork, from + 1, count, k),
        Sort::Data => {
            let rest = chunks_from(m, p, from + 1, count)->Ok_0;
            match chunk_of(c, p)->Ok_0 {
                Some(one) => if k == 0 {
                    reveal(chunk_of);
                    law_fields_are_numbers(c, 0);
                    law_fields_are_numbers(c, 8);
                    law_fields_are_numbers(c, 16);
                    law_fields_are_numbers(c, 24);
                    law_fields_are_numbers(c, 32);
                    law_fields_are_numbers(m, 8);
                    law_fields_are_numbers(m, 24);
                    from as int
                } else {
                    assert((seq![one] + rest)[k] == rest[k - 1]);
                    lemma_entry_of(m, p, fork, from + 1, count, k - 1)
                },
                None => lemma_entry_of(m, p, fork, from + 1, count, k),
            }
        },
        _ => 0,
    }
}

/// The trailer is read as the format lays it out, each field in all its bytes.
pub proof fn law_trailers_are_as_the_format_says(b: Seq<u8>)
    ensures
        koly_in(b) matches Some(k) ==> {
            &&& b.subrange(0, 4) == seq![0x6bu8, 0x6fu8, 0x6cu8, 0x79u8]
            &&& be_value(b.subrange(4, 8)) == 4
            &&& be_value(b.subrange(8, 12)) == 512
            &&& k.data_fork_offset == be_value(b.subrange(24, 32))
            &&& k.rsrc_offset == be_value(b.subrange(40, 48))
            &&& k.rsrc_len == be_value(b.subrange(48, 56))
            &&& k.segment_count == be_value(b.subrange(60, 64))
            &&& k.xml_offset == be_value(b.subrange(216, 224))
            &&& k.xml_len == be_value(b.subrange(224, 232))
            &&& k.sectors == be_value(b.subrange(492, 500))
        },
{
    if koly_in(b) is Some {
        assert(KOLY@ =~= seq![0x6bu8, 0x6fu8, 0x6cu8, 0x79u8]);
        law_fields_are_numbers(b, 4);
        law_fields_are_numbers(b, 8);
        law_fields_are_numbers(b, 24);
        law_fields_are_numbers(b, 40);
        law_fields_are_numbers(b, 48);
        law_fields_are_numbers(b, 60);
        law_fields_are_numbers(b, 216);
        law_fields_are_numbers(b, 224);
        law_fields_are_numbers(b, 492);
    }
}

/// Every entry of a mish block that holds something is among its chunks, as long as no entry
/// before it ends them.
pub proof fn law_no_chunk_is_missed(fork: u64, b: Named, i: int)
    requires
        part_of(fork, b) is Ok,
        0 <= i < be_value(b.mish.subrange(200, 204)),
        be_value(b.mish.subrange(204 + 40 * i + 16, 204 + 40 * i + 24)) > 0,
        be_value(b.mish.subrange(204 + 40 * i, 204 + 40 * i + 4)) != 0x7fff_fffe,
        forall|k: int|
            0 <= k <= i ==> #[trigger] be_value(b.mish.subrange(204 + 40 * k, 204 + 40 * k + 4)) != 0xffff_ffff,
    ensures
        ({
            let (_, chunks) = part_of(fork, b)->Ok_0;
            exists|c: Chunk| #[trigger] chunks.contains(c) && says(b.mish, fork, i, c)
        }),
{
    reveal(part_of);
    let m = b.mish;
    law_fields_are_numbers(m, 8);
    law_fields_are_numbers(m, 24);
    law_fields_are_numbers(m, 200);
    let first = be64_at(m, 8);
    let p = Place {
        first,
        start: (first * 512) as u64,
        end: ((first + be64_at(m, 16)) * 512) as u64,
        fork,
        data: be64_at(m, 24),
    };
    let c = lemma_chunk_of_entry(m, p, fork, 0, be32_at(m, 200) as nat, i);
    let (_, chunks) = part_of(fork, b)->Ok_0;
    assert(chunks.contains(c));
}

proof fn lemma_chunk_of_entry(m: Seq<u8>, p: Place, fork: u64, from: nat, count: nat, i: int) -> (c: Chunk)
    requires
        m.len() >= 204 + 40 * count,
        p.first == be64_at(m, 8),
        p.data == be64_at(m, 24),
        p.fork == fork,
        chunks_from(m, p, from, count) is Ok,
        from <= i < count,
        be_value(m.subrange(204 + 40 * i + 16, 204 + 40 * i + 24)) > 0,
        be_value(m.subrange(204 + 40 * i, 204 + 40 * i + 4)) != 0x7fff_fffe,
        forall|k: int| 0 <= k <= i ==> #[trigger] be_value(m.subrange(204 + 40 * k, 204 + 40 * k + 4)) != 0xffff_ffff,
    ensures
        chunks_from(m, p, from, count)->Ok_0.contains(c),
        says(m, fork, i, c),
    decreases count - from,
{
    let at = 204 + 40 * from as int;
    let e = m.subrange(at, 244 + 40 * from as int);
    law_fields_are_numbers(e, 0);
    assert(e.subrange(0, 4) =~= m.subrange(at, at + 4));
    assert(be_value(m.subrange(at, at + 4)) != 0xffff_ffff);
    let all = chunks_from(m, p, from, count)->Ok_0;
    if from == i {
        reveal(chunk_of);
        law_fields_are_numbers(e, 8);
        law_fields_are_numbers(e, 16);
        law_fields_are_numbers(e, 24);
        law_fields_are_numbers(e, 32);
        law_fields_are_numbers(m, 8);
        law_fields_are_numbers(m, 24);
        assert(e.subrange(16, 24) =~= m.subrange(at + 16, at + 24));
        let c = chunk_of(e, p)->Ok_0->0;
        assert(all[0] == c);
        c
    } else {
        let c = lemma_chunk_of_entry(m, p, fork, from + 1, count, i);
        let rest = chunks_from(m, p, from + 1, count)->Ok_0;
        let k = rest.index_of(c);
        if all.len() == rest.len() + 1 {
            assert(all[k + 1] == c);
        } else {
            assert(all == rest);
        }
        c
    }
}

} // verus!
