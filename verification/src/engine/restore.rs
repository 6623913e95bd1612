//! Restores: what kind of image a file is, what can be learned of it from its headers, and
//! how the data of a smart image comes back to its places on the drive.

use vstd::prelude::*;
use vstd::string::*;
use crate::engine::formats::codec::{begins, streamed_bytes, Streamed, MOST_AT_ONCE};
use crate::engine::formats::source::{
    bad, bytes_at, crc32, crc32_of, has_bytes, holds, law_fields_are_numbers, law_little_fields_read_back, le32,
    le32_at, le32_bytes, le_value, little, plain, push_bytes, push_le32, Loaded, Stop,
};
use crate::engine::image::{
    announced, extra_end, flagged_end, head_len, head_text, law_parsed_maps_are_in_order, law_runs_follow_the_map,
    member_of, parsed, read_head, read_header, run_at, zero_from, Cursor, Head, Header, Member, Parts, SpaceMap,
    MAGIC_V1, MAGIC_V2, MAP_MAX,
};
use crate::engine::{ImageFormat, ImageInfo, SmartInfo};
use crate::error::{bad_fault, Error, Fault};
use crate::smart::{any_holds, lemma_total_fits, total, Extent};

verus! {

/// The format that a file's first bytes tell; gzip, xz, zstd and zip are told from all that
/// is read as it is.
pub open spec fn format_in(head: Seq<u8>) -> ImageFormat {
    if holds(head, 0, seq![0x1f, 0x8b]) {
        ImageFormat::Gzip
    } else if holds(head, 0, XZ_MAGIC@) {
        ImageFormat::Xz
    } else if holds(head, 0, ZSTD_MAGIC@) || (head.len() >= 4 && 0x50 <= head[0] <= 0x5f && holds(
        head,
        1,
        SKIPPABLE@,
    )) {
        // A zstd frame, or a skippable frame in front of one (pzstd writes those).
        ImageFormat::Zstd
    } else if holds(head, 0, ZIP_MAGIC@) {
        ImageFormat::Zip
    } else {
        ImageFormat::Raw
    }
}

pub const GZIP_MAGIC: [u8; 2] = [0x1f, 0x8b];

pub const XZ_MAGIC: [u8; 6] = [0xfd, 0x37, 0x7a, 0x58, 0x5a, 0];

pub const ZSTD_MAGIC: [u8; 4] = [0x28, 0xb5, 0x2f, 0xfd];

/// The last bytes of a skippable frame's magic number.
pub const SKIPPABLE: [u8; 3] = [0x2a, 0x4d, 0x18];

pub const ZIP_MAGIC: [u8; 4] = [0x50, 0x4b, 3, 4];

pub fn format_of(head: &[u8]) -> (f: ImageFormat)
    ensures
        f == format_in(head@),
{
    assert(GZIP_MAGIC@ =~= seq![0x1fu8, 0x8b]);
    if has_bytes(head, 0, &GZIP_MAGIC) {
        ImageFormat::Gzip
    } else if has_bytes(head, 0, &XZ_MAGIC) {
        ImageFormat::Xz
    } else if has_bytes(head, 0, &ZSTD_MAGIC) || (head.len() >= 4 && head[0] >= 0x50 && head[0] <= 0x5f
        && has_bytes(head, 1, &SKIPPABLE)) {
        ImageFormat::Zstd
    } else if has_bytes(head, 0, &ZIP_MAGIC) {
        ImageFormat::Zip
    } else {
        ImageFormat::Raw
    }
}

// xz.

/// What an xz file's index says.
#[derive(Clone, Copy, Debug, PartialEq, Eq, Structural)]
pub struct XzIndex {
    pub uncompressed: u64,
    pub streams: u32,
    pub blocks: u64,
    /// The biggest block, uncompressed and compressed (for the threaded decoder's memory).
    pub max_block: u64,
    pub max_block_packed: u64,
}

/// The value of the 7-bit groups of `n` bytes from `at` on, the least significant first.
pub open spec fn vli_value(data: Seq<u8>, at: int, n: nat) -> nat
    decreases n,
{
    if n == 0 {
        0
    } else {
        (data[at] % 128) as nat + 128 * vli_value(data, at + 1, (n - 1) as nat)
    }
}

/// The bytes of the variable-length integer at `at`, nine at most; 0 if it does not end.
pub open spec fn vli_len(data: Seq<u8>, at: int, n: nat) -> nat
    decreases 9 - n,
{
    if n >= 9 || at + n >= data.len() {
        0
    } else if data[at + n] < 128 {
        n + 1
    } else {
        vli_len(data, at, n + 1)
    }
}

/// The variable-length integer at `at`, and where it ends.
pub open spec fn vli_at(data: Seq<u8>, at: int) -> Option<(nat, int)> {
    let n = vli_len(data, at, 0);
    if n == 0 {
        None
    } else {
        Some((vli_value(data, at, n), at + n))
    }
}

pub open spec fn power128(n: nat) -> nat
    decreases n,
{
    if n == 0 {
        1
    } else {
        128 * power128((n - 1) as nat)
    }
}

proof fn lemma_vli_bound(data: Seq<u8>, at: int, n: nat)
    ensures
        vli_value(data, at, n) < power128(n),
    decreases n,
{
    if n > 0 {
        lemma_vli_bound(data, at + 1, (n - 1) as nat);
    }
}

proof fn lemma_vli_more(data: Seq<u8>, at: int, n: nat)
    ensures
        vli_value(data, at, n + 1) == vli_value(data, at, n) + power128(n) * (data[at + n] % 128),
    decreases n,
{
    if n > 0 {
        lemma_vli_more(data, at + 1, (n - 1) as nat);
        let p = power128((n - 1) as nat);
        let d = (data[at + n] % 128) as nat;
        assert(128 * (p * d) == (128 * p) * d) by (nonlinear_arith);
    } else {
        assert(power128(0) == 1);
        assert(vli_value(data, at, 0) == 0);
        assert(vli_value(data, at + 1, 0) == 0);
    }
}

proof fn lemma_power128()
    ensures
        power128(9) == 0x8000_0000_0000_0000,
{
    reveal_with_fuel(power128, 10);
}

proof fn lemma_power128_grows(a: nat, b: nat)
    requires
        a <= b,
    ensures
        power128(a) <= power128(b),
    decreases b - a,
{
    if a < b {
        lemma_power128_grows(a, (b - 1) as nat);
    }
}

/// A variable-length integer of the xz format at `*at`, which moves past it.
pub fn vli(data: &[u8], at: &mut usize) -> (r: Option<u64>)
    requires
        *old(at) <= data@.len(),
    ensures
        *final(at) <= data@.len(),
        match (r, vli_at(data@, *old(at) as int)) {
            (Some(v), Some((n, end))) => v == n && *final(at) == end && v < 0x8000_0000_0000_0000,
            (None, None) => true,
            _ => false,
        },
{
    let start: usize = *at;
    let mut v: u64 = 0;
    let mut scale: u64 = 1;
    let mut i: usize = 0;
    proof {
        lemma_power128();
    }
    while i < 9
        invariant
            i <= 9,
            start == *old(at),
            *at == start + i,
            *at <= data@.len(),
            v == vli_value(data@, start as int, i as nat),
            i < 9 ==> scale == power128(i as nat),
            power128(9) == 0x8000_0000_0000_0000,
            vli_len(data@, start as int, 0) == vli_len(data@, start as int, i as nat),
        decreases 9 - i,
    {
        if *at >= data.len() {
            return None;
        }
        let b: u8 = data[*at];
        *at = *at + 1;
        let d: u64 = (b % 128) as u64;
        proof {
            lemma_vli_more(data@, start as int, i as nat);
            lemma_vli_bound(data@, start as int, (i + 1) as nat);
            lemma_power128_grows((i + 1) as nat, 9);
            assert(scale * d >= 0) by (nonlinear_arith);
        }
        v = v + scale * d;
        if b < 128 {
            return Some(v);
        }
        i = i + 1;
        if i < 9 {
            proof {
                lemma_power128_grows(i as nat, 8);
                assert(power128(9) == 128 * power128(8));
            }
            scale = scale * 128;
        }
    }
    None
}

pub open spec fn index_fault() -> Fault {
    bad_fault("invalid xz index"@)
}

/// The size of a block with its padding.
pub open spec fn padded(n: nat) -> nat {
    (n + 3) / 4 * 4
}

pub open spec fn larger(a: u64, b: nat) -> u64 {
    if b > a {
        b as u64
    } else {
        a
    }
}

/// What `n` records from `at` on add to an index, and how long their blocks are in the file.
pub open spec fn records_from(data: Seq<u8>, at: int, n: nat, index: XzIndex, packed: u64) -> Option<(XzIndex, u64)>
    decreases n,
{
    if n == 0 {
        Some((index, packed))
    } else {
        match vli_at(data, at) {
            None => None,
            Some((unpadded, second)) => match vli_at(data, second) {
                None => None,
                Some((size, next)) => if packed + padded(unpadded) > u64::MAX || index.uncompressed + size > u64::MAX {
                    None
                } else {
                    records_from(
                        data,
                        next,
                        (n - 1) as nat,
                        XzIndex {
                            uncompressed: (index.uncompressed + size) as u64,
                            max_block: larger(index.max_block, size),
                            max_block_packed: larger(index.max_block_packed, padded(unpadded)),
                            ..index
                        },
                        (packed + padded(unpadded)) as u64,
                    )
                },
            },
        }
    }
}

/// What a stream's index adds, and how long its blocks are in the file.
pub open spec fn with_stream(data: Seq<u8>, index: XzIndex) -> Option<(XzIndex, u64)> {
    match vli_at(data, 1) {
        None => None,
        Some((records, at)) => if data[0] != 0 || index.blocks + records > u64::MAX || index.streams == u32::MAX {
            None
        } else {
            match records_from(data, at, records, index, 0) {
                None => None,
                Some((i, packed)) => Some(
                    (XzIndex { blocks: (i.blocks + records) as u64, streams: (i.streams + 1) as u32, ..i }, packed),
                ),
            }
        },
    }
}

/// The indexes of the streams that end at `end` or before it, added to `index`.
pub open spec fn index_to(file: Seq<u8>, end: int, index: XzIndex) -> Result<XzIndex, Fault>
    decreases end,
{
    if end <= 0 {
        Ok(index)
    } else if end < 12 || end > file.len() {
        Err(index_fault())
    } else {
        let footer = file.subrange(end - 12, end);
        let size = (le32_at(footer, 4) + 1) * 4;
        let start = end - 12 - size;
        if le32_at(footer, 8) == 0 {
            // Padding of the stream.
            index_to(file, end - 4, index)
        } else if footer[10] != 0x59 || footer[11] != 0x5a || size > 0x4000_0000 || start < 0 {
            Err(index_fault())
        } else {
            match with_stream(file.subrange(start, start + size), index) {
                None => Err(index_fault()),
                Some((next, packed)) => if start - packed - 12 < 0 || !holds(
                    file,
                    start - packed - 12,
                    XZ_MAGIC@,
                ) {
                    Err(index_fault())
                } else {
                    index_to(file, start - packed - 12, next)
                },
            }
        }
    }
}

pub open spec fn no_index() -> XzIndex {
    XzIndex { uncompressed: 0, streams: 0, blocks: 0, max_block: 0, max_block_packed: 0 }
}

/// What the indexes of all streams of an xz file say.
pub open spec fn xz_index_of(file: Seq<u8>) -> Result<XzIndex, Fault> {
    index_to(file, file.len() as int, no_index())
}

fn stream_index(data: &[u8], before: XzIndex) -> (r: Option<(XzIndex, u64)>)
    requires
        data@.len() >= 4,
    ensures
        r == with_stream(data@, before),
{
    let mut at: usize = 1;
    let records: u64 = match vli(data, &mut at) {
        Some(n) => n,
        None => {
            return None;
        },
    };
    if data[0] != 0 || before.blocks > u64::MAX - records || before.streams == u32::MAX {
        return None;
    }
    let mut index: XzIndex = before;
    let mut packed: u64 = 0;
    let mut left: u64 = records;
    let ghost goal = records_from(data@, at as int, records as nat, before, 0);
    while left > 0
        invariant
            at <= data@.len(),
            goal == records_from(data@, at as int, left as nat, index, packed),
            index.blocks == before.blocks,
            index.streams == before.streams,
            before.blocks + records <= u64::MAX,
            before.streams < u32::MAX,
            with_stream(data@, before) == (match goal {
                None => None,
                Some((i, packed)) => Some(
                    (XzIndex { blocks: (i.blocks + records) as u64, streams: (i.streams + 1) as u32, ..i }, packed),
                ),
            }),
        decreases left,
    {
        let unpadded: u64 = match vli(data, &mut at) {
            Some(n) => n,
            None => {
                return None;
            },
        };
        let size: u64 = match vli(data, &mut at) {
            Some(n) => n,
            None => {
                return None;
            },
        };
        let block: u64 = (unpadded + 3) / 4 * 4;
        if packed > u64::MAX - block || index.uncompressed > u64::MAX - size {
            return None;
        }
        packed = packed + block;
        index.uncompressed = index.uncompressed + size;
        if size > index.max_block {
            index.max_block = size;
        }
        if block > index.max_block_packed {
            index.max_block_packed = block;
        }
        left = left - 1;
    }
    index.blocks = index.blocks + records;
    index.streams = index.streams + 1;
    Some((index, packed))
}

/// Reads the index of every stream, from the end of the file backwards.
pub fn xz_index(size: u64, have: &Loaded) -> (r: Result<XzIndex, Stop>)
    ensures
        match r {
            Ok(i) => forall|file: Seq<u8>| #[trigger]
                have.shows(plain(size), file) ==> xz_index_of(file) == Ok::<XzIndex, Fault>(i),
            Err(Stop::Failed(e)) => forall|file: Seq<u8>| #[trigger]
                have.shows(plain(size), file) ==> xz_index_of(file) == Err::<XzIndex, Fault>(e@),
            Err(Stop::Need { offset, len }) => have.lacks(plain(size), offset, len),
        },
{
    let mut index: XzIndex = XzIndex { uncompressed: 0, streams: 0, blocks: 0, max_block: 0, max_block_packed: 0 };
    let mut end: u64 = size;
    while end > 0
        invariant
            end <= size,
            forall|file: Seq<u8>| #[trigger]
                have.shows(plain(size), file) ==> xz_index_of(file) == index_to(file, end as int, index),
        decreases end,
    {
        if end < 12 {
            return Err(Stop::Failed(bad("invalid xz index")));
        }
        let footer: Vec<u8> = match have.get(end - 12, 12) {
            Some(b) => b,
            None => {
                return Err(Stop::Need { offset: end - 12, len: 12 });
            },
        };
        proof {
            assert forall|file: Seq<u8>| #[trigger] have.shows(plain(size), file) implies footer@
                == file.subrange(end - 12, end as int) by {}
        }
        if le32(&footer, 8) == 0 {
            end = end - 4;
            continue;
        }
        let index_size: u64 = (le32(&footer, 4) as u64 + 1) * 4;
        if footer[10] != 0x59 || footer[11] != 0x5a || index_size > 0x4000_0000 || end - 12 < index_size {
            return Err(Stop::Failed(bad("invalid xz index")));
        }
        let start: u64 = end - 12 - index_size;
        let data: Vec<u8> = match have.get(start, index_size as usize) {
            Some(b) => b,
            None => {
                return Err(Stop::Need { offset: start, len: index_size as usize });
            },
        };
        proof {
            assert forall|file: Seq<u8>| #[trigger] have.shows(plain(size), file) implies data@ == file.subrange(
                start as int,
                start + index_size,
            ) by {}
        }
        let (next, packed) = match stream_index(&data, index) {
            Some(p) => p,
            None => {
                return Err(Stop::Failed(bad("invalid xz index")));
            },
        };
        if packed > start || start - packed < 12 {
            return Err(Stop::Failed(bad("invalid xz index")));
        }
        let first: u64 = start - packed - 12;
        let magic: Vec<u8> = match have.get(first, 6) {
            Some(b) => b,
            None => {
                return Err(Stop::Need { offset: first, len: 6 });
            },
        };
        proof {
            assert forall|file: Seq<u8>| #[trigger] have.shows(plain(size), file) implies holds(
                file,
                first as int,
                XZ_MAGIC@,
            ) == holds(magic@, 0, XZ_MAGIC@) by {
                assert(magic@ == file.subrange(first as int, first + 6));
                assert(magic@.subrange(0, 6) =~= magic@);
            }
        }
        if !has_bytes(&magic, 0, &XZ_MAGIC) {
            return Err(Stop::Failed(bad("invalid xz index")));
        }
        index = next;
        end = first;
    }
    Ok(index)
}

/// Threads for decoding xz: files with several blocks (as `xz -T0` makes them) decode in
/// parallel, within about 512 MiB of memory.
pub open spec fn workers_of(index: XzIndex, cpus: u64) -> u32 {
    let need = index.max_block + index.max_block_packed;
    let room = if need <= 0 {
        0x2000_0000int
    } else {
        0x2000_0000int / need
    };
    let most = if room < cpus {
        room
    } else {
        cpus as int
    };
    if index.streams != 1 || index.blocks < 2 || most < 1 {
        1
    } else if most > 4 {
        4
    } else {
        most as u32
    }
}

/// Threads for decoding xz on a machine with that many CPUs.
pub fn xz_workers(index: &XzIndex, cpus: u64) -> (n: u32)
    ensures
        n == workers_of(*index, cpus),
        1 <= n <= 4,
{
    if index.streams != 1 || index.blocks < 2 {
        return 1;
    }
    let need: u128 = index.max_block as u128 + index.max_block_packed as u128;
    let room: u128 = if need == 0 {
        0x2000_0000
    } else {
        0x2000_0000 / need
    };
    let most: u128 = if room < cpus as u128 {
        room
    } else {
        cpus as u128
    };
    if most < 1 {
        1
    } else if most > 4 {
        4
    } else {
        most as u32
    }
}

// zstd.

/// The bytes of the content size in a frame's header, by the header's descriptor.
pub open spec fn size_len(d: u8) -> nat {
    if d / 64 == 0 {
        if (d / 32) % 2 == 1 {
            1
        } else {
            0
        }
    } else if d / 64 == 1 {
        2
    } else if d / 64 == 2 {
        4
    } else {
        8
    }
}

/// The bytes between the descriptor and the content size.
pub open spec fn fields_len(d: u8) -> nat {
    (if (d / 32) % 2 == 1 {
        0nat
    } else {
        1
    }) + (if d % 4 == 3 {
        4nat
    } else {
        (d % 4) as nat
    })
}

/// A number of up to eight bytes, the least significant first.
pub open spec fn le_number(b: Seq<u8>) -> nat
    decreases b.len(),
{
    if b.len() == 0 {
        0
    } else {
        b[0] as nat + 256 * le_number(b.skip(1))
    }
}

/// The content size in the header of the first zstd frame at or after `at`, if it has one.
pub open spec fn content_from(file: Seq<u8>, at: int) -> Option<u64>
    decreases
        (if at < file.len() {
            file.len() - at
        } else {
            0
        }),
{
    if at < 0 || at + 4 > file.len() {
        None
    } else if 0x50 <= file[at] <= 0x5f && holds(file, at + 1, SKIPPABLE@) {
        if at + 8 > file.len() {
            None
        } else {
            content_from(file, at + 8 + le32_at(file.subrange(at, at + 8), 4))
        }
    } else if holds(file, at, ZSTD_MAGIC@) {
        if at + 5 > file.len() {
            None
        } else {
            let d = file[at + 4];
            let n = size_len(d) as int;
            let from = at + 5 + fields_len(d);
            if n == 0 || from + n > file.len() {
                None
            } else {
                let size = le_number(file.subrange(from, from + n));
                Some(
                    (if n == 2 {
                        size + 256
                    } else {
                        size
                    }) as u64,
                )
            }
        }
    } else {
        None
    }
}

proof fn lemma_le_number(b: Seq<u8>)
    requires
        b.len() <= 8,
    ensures
        b.len() <= 1 ==> le_number(b) <= 0xff,
        b.len() <= 2 ==> le_number(b) <= 0xffff,
        b.len() <= 4 ==> le_number(b) <= 0xffff_ffff,
        le_number(b) <= u64::MAX,
{
    reveal_with_fuel(le_number, 9);
}

fn le_bytes(b: &[u8]) -> (v: u64)
    requires
        b@.len() <= 8,
    ensures
        v == le_number(b@),
    decreases b@.len(),
{
    if b.len() == 0 {
        return 0;
    }
    let rest: &[u8] = vstd::slice::slice_subrange(b, 1, b.len());
    assert(rest@ == b@.skip(1));
    let v: u64 = le_bytes(rest);
    proof {
        lemma_le_number(b@);
    }
    b[0] as u64 + 256 * v
}

/// The content size in the first zstd frame's header, if it has one. (The zstd tool writes
/// one frame per file.)
#[verifier::spinoff_prover]
#[verifier::rlimit(60)]
pub fn zstd_content_size(size: u64, have: &Loaded) -> (r: Result<Option<u64>, Stop>)
    ensures
        match r {
            Ok(n) => forall|file: Seq<u8>| #[trigger]
                have.shows(plain(size), file) ==> n == content_from(file, 0),
            Err(Stop::Failed(_)) => false,
            Err(Stop::Need { offset, len }) => have.lacks(plain(size), offset, len),
        },
{
    let mut at: u64 = 0;
    loop
        invariant
            at <= size,
            forall|file: Seq<u8>| #[trigger]
                have.shows(plain(size), file) ==> content_from(file, 0) == content_from(file, at as int),
        decreases size - at,
    {
        let left: u64 = size - at;
        if left < 4 {
            return Ok(None);
        }
        // A frame's header takes 18 bytes at most.
        let n: usize = if left < 18 {
            left as usize
        } else {
            18
        };
        let b: Vec<u8> = match have.get(at, n) {
            Some(b) => b,
            None => {
                return Err(Stop::Need { offset: at, len: n });
            },
        };
        let ghost s = b@;
        proof {
            assert forall|file: Seq<u8>| #[trigger] have.shows(plain(size), file) implies {
                &&& s == file.subrange(at as int, at + n)
                &&& s[0] == file[at as int]
                &&& holds(s, 1, SKIPPABLE@) == holds(file, at + 1, SKIPPABLE@)
                &&& holds(s, 0, ZSTD_MAGIC@) == holds(file, at as int, ZSTD_MAGIC@)
                &&& n >= 8 ==> le32_at(file.subrange(at as int, at + 8), 4) == le32_at(s, 4)
            } by {
                assert(s.subrange(1, 4) =~= file.subrange(at + 1, at + 4));
                assert(s.subrange(0, 4) =~= file.subrange(at as int, at + 4));
            }
        }
        if b[0] >= 0x50 && b[0] <= 0x5f && has_bytes(&b, 1, &SKIPPABLE) {
            if n < 8 {
                return Ok(None);
            }
            let skip: u64 = 8 + le32(&b, 4) as u64;
            if skip > left {
                proof {
                    assert forall|file: Seq<u8>| #[trigger] have.shows(plain(size), file) implies content_from(
                        file,
                        0,
                    ) is None by {
                        assert(content_from(file, at + skip) is None);
                    }
                }
                return Ok(None);
            }
            at = at + skip;
            continue;
        }
        if !has_bytes(&b, 0, &ZSTD_MAGIC) || n < 5 {
            return Ok(None);
        }
        let d: u8 = b[4];
        let single: bool = (d / 32) % 2 == 1;
        let len: usize = if d / 64 == 0 {
            if single {
                1
            } else {
                0
            }
        } else if d / 64 == 1 {
            2
        } else if d / 64 == 2 {
            4
        } else {
            8
        };
        let mut from: usize = if single {
            5
        } else {
            6
        };
        from = from + (if d % 4 == 3 {
            4
        } else {
            (d % 4) as usize
        });
        proof {
            assert forall|file: Seq<u8>| #[trigger] have.shows(plain(size), file) implies {
                &&& d == file[at + 4]
                &&& from + len <= n ==> s.subrange(from as int, from + len) == file.subrange(
                    at + from,
                    at + from + len,
                )
            } by {
                assert(s[4] == file[at + 4]);
                assert(from + len <= n ==> s.subrange(from as int, from + len) =~= file.subrange(
                    at + from,
                    at + from + len,
                ));
            }
        }
        if len == 0 || from + len > n {
            return Ok(None);
        }
        let part: Vec<u8> = bytes_at(&b, from, len);
        let v: u64 = le_bytes(&part);
        proof {
            lemma_le_number(part@);
        }
        return Ok(
            Some(
                if len == 2 {
                    v + 256
                } else {
                    v
                },
            ),
        );
    }
}

/// The content size that a zstd frame's header gives is the size it was written with, in each of
/// the four ways of writing one: in one byte (frames of a single segment), in two (256 less), in
/// four, and in eight. It stands behind the descriptor, the window (which a single segment has
/// not) and the dictionary's number, which takes 0, 1, 2 or 4 bytes.
pub proof fn law_zstd_sizes_read_back(file: Seq<u8>, from: int, n: nat)
    requires
        file.len() >= 5,
        file[0] == 0x28 && file[1] == 0xb5 && file[2] == 0x2f && file[3] == 0xfd,
        from == 5 + (if file[4] / 32 % 2 == 1 {
            0int
        } else {
            1
        }) + (if file[4] % 4 == 3 {
            4int
        } else {
            (file[4] % 4) as int
        }),
    ensures
        file[4] / 64 == 3 && n <= u64::MAX && from + 8 <= file.len() && file.subrange(from, from + 8) == little(n, 8)
            ==> content_from(file, 0) == Some(n as u64),
        file[4] / 64 == 2 && n <= u32::MAX && from + 4 <= file.len() && file.subrange(from, from + 4) == little(n, 4)
            ==> content_from(file, 0) == Some(n as u64),
        file[4] / 64 == 1 && 256 <= n <= 0xffff + 256 && from + 2 <= file.len() && file.subrange(from, from + 2)
            == little((n - 256) as nat, 2) ==> content_from(file, 0) == Some(n as u64),
        file[4] / 64 == 0 && file[4] / 32 % 2 == 1 && from < file.len() ==> content_from(file, 0) == Some(
            file[from] as u64,
        ),
        file[4] / 64 == 0 && file[4] / 32 % 2 == 0 ==> content_from(file, 0) is None,
        from + (if file[4] / 64 == 3 {
            8int
        } else if file[4] / 64 == 2 {
            4
        } else if file[4] / 64 == 1 {
            2
        } else {
            1
        }) > file.len() ==> content_from(file, 0) is None,
{
    assert(file.subrange(0, 4) =~= ZSTD_MAGIC@);
    assert(holds(file, 0, ZSTD_MAGIC@));
    lemma_little(n, 8);
    lemma_little(n, 4);
    if n >= 256 {
        lemma_little((n - 256) as nat, 2);
    }
    if from < file.len() {
        let one = file.subrange(from, from + 1);
        reveal_with_fuel(le_number, 3);
        assert(one[0] == file[from]);
        assert(one.skip(1) =~= Seq::<u8>::empty());
    }
}

/// Bytes that a number was written to make that number.
proof fn lemma_little(n: nat, len: nat)
    ensures
        len == 8 && n <= u64::MAX ==> le_number(little(n, len)) == n,
        len == 4 && n <= u32::MAX ==> le_number(little(n, len)) == n,
        len == 2 && n <= 0xffff ==> le_number(little(n, len)) == n,
{
    lemma_little_mod(n, len);
    reveal_with_fuel(power256, 9);
}

spec fn power256(n: nat) -> nat
    decreases n,
{
    if n == 0 {
        1
    } else {
        256 * power256((n - 1) as nat)
    }
}

proof fn lemma_little_mod(n: nat, len: nat)
    ensures
        n < power256(len) ==> le_number(little(n, len)) == n,
    decreases len,
{
    if len > 0 {
        let b = little(n, len);
        lemma_little_mod(n / 256, (len - 1) as nat);
        assert(b.skip(1) =~= little(n / 256, (len - 1) as nat));
        assert(b[0] == (n % 256) as u8);
    }
}

/// A frame to pass over in front of a zstd file makes no difference to the size it gives.
pub proof fn law_skippable_frames_are_passed_over(frame: Seq<u8>, file: Seq<u8>)
    requires
        8 <= frame.len() < 0x1_0000_0000,
        0x50 <= frame[0] <= 0x5f && frame[1] == 0x2a && frame[2] == 0x4d && frame[3] == 0x18,
        frame.subrange(4, 8) == little((frame.len() - 8) as nat, 4),
    ensures
        content_from(frame + file, 0) == content_from(file, 0),
{
    let all = frame + file;
    assert(all.subrange(1, 4) =~= SKIPPABLE@);
    assert(holds(all, 1, SKIPPABLE@));
    let head = all.subrange(0, 8);
    assert(head.subrange(4, 8) =~= frame.subrange(4, 8));
    law_little_fields_read_back(head, 4, (frame.len() - 8) as nat);
    lemma_content_shifts(frame, file, 0);
}

proof fn lemma_content_shifts(a: Seq<u8>, b: Seq<u8>, at: int)
    requires
        0 <= at,
    ensures
        content_from(a + b, a.len() + at) == content_from(b, at),
    decreases
        (if at < b.len() {
            b.len() - at
        } else {
            0
        }),
{
    let n = a.len() as int;
    let all = a + b;
    if at + 4 <= b.len() {
        assert(all[n + at] == b[at]);
        assert(all.subrange(n + at + 1, n + at + 4) =~= b.subrange(at + 1, at + 4));
        assert(all.subrange(n + at, n + at + 4) =~= b.subrange(at, at + 4));
        assert(holds(all, n + at + 1, SKIPPABLE@) == holds(b, at + 1, SKIPPABLE@));
        assert(holds(all, n + at, ZSTD_MAGIC@) == holds(b, at, ZSTD_MAGIC@));
        if 0x50 <= b[at] <= 0x5f && holds(b, at + 1, SKIPPABLE@) {
            if at + 8 <= b.len() {
                assert(all.subrange(n + at, n + at + 8) =~= b.subrange(at, at + 8));
                lemma_content_shifts(a, b, at + 8 + le32_at(b.subrange(at, at + 8), 4));
            }
        } else if at + 5 <= b.len() {
            let d = b[at + 4];
            assert(all[n + at + 4] == d);
            let len = size_len(d) as int;
            let from = at + 5 + fields_len(d);
            if from + len <= b.len() {
                assert(all.subrange(n + from, n + from + len) =~= b.subrange(from, from + len));
            }
        }
    }
}

// What can be learned of an image.

/// The most bytes that the header of a smart image of version 1 can take.
pub const HEADER_MAX: usize = 0x402_0010;

/// How much of a gzip file is looked at first for its header.
pub const HEADER_LOOK: usize = 0x1_0000;

/// An image to restore, looked at but not read yet.
pub struct Image {
    pub info: ImageInfo,
    /// The map of a smart image.
    pub map: Option<SpaceMap>,
    pub xz: Option<XzIndex>,
}

/// What is learned of an image.
pub ghost struct Learned {
    pub info: ImageInfo,
    pub map: Option<Parts>,
    pub xz: Option<XzIndex>,
}

impl View for Image {
    type V = Learned;

    open spec fn view(&self) -> Learned {
        Learned {
            info: self.info,
            map: match self.map {
                Some(m) => Some(m@),
                None => None,
            },
            xz: self.xz,
        }
    }
}

impl Image {
    pub open spec fn wf(&self) -> bool {
        match self.map {
            Some(m) => m@.wf(),
            None => true,
        }
    }

    /// What progress counts toward: used bytes of a smart image, else bytes of the file.
    pub fn total(&self) -> (n: u64)
        requires
            self.wf(),
        ensures
            n == (match self.map {
                Some(m) => total(m.extents@),
                None => self.info.size as nat,
            }),
    {
        proof {
            if let Some(ref m) = self.map {
                lemma_total_fits(m.extents@, m.size as int);
            }
        }
        match &self.map {
            Some(m) => m.used(),
            None => self.info.size,
        }
    }

    /// How big a drive has to be to take the image, when that is known.
    pub fn needs(&self) -> (n: Option<u64>)
        requires
            self.wf(),
        ensures
            n == (match self.map {
                Some(m) => Some(crate::smart::end_of(m.extents@) as u64),
                None => self.info.uncompressed,
            }),
    {
        proof {
            if let Some(ref m) = self.map {
                lemma_total_fits(m.extents@, m.size as int);
            }
        }
        match &self.map {
            Some(m) => Some(m.end()),
            None => self.info.uncompressed,
        }
    }

    /// A drive is a raw image of itself.
    pub fn of_drive(size: u64) -> (i: Image)
        ensures
            i.wf(),
            i@ == (Learned {
                info: ImageInfo { format: ImageFormat::Raw, size, uncompressed: Some(size), smart: None },
                map: None,
                xz: None,
            }),
    {
        Image {
            info: ImageInfo { format: ImageFormat::Raw, size, uncompressed: Some(size), smart: None },
            map: None,
            xz: None,
        }
    }
}

/// The first bytes of a file, `n` of them at most.
pub open spec fn start_of(file: Seq<u8>, n: nat) -> Seq<u8> {
    if file.len() < n {
        file
    } else {
        file.take(n as int)
    }
}

/// The map in the comment of a gzip file's header, if the file is a smart image of version 1
/// that is not damaged there.
pub open spec fn gzip_map(file: Seq<u8>) -> Option<Parts> {
    match member_of(start_of(file, HEADER_MAX as nat)) {
        Err(_) => None,
        Ok(m) => match m.comment {
            None => None,
            Some(text) => match parsed(text, MAGIC_V1@) {
                Some(Some(map)) => Some(map),
                _ => None,
            },
        },
    }
}

/// The map at the start of a zstd file, if the file is a smart image of version 2 that is
/// neither damaged nor cut short there.
pub open spec fn frame_map(file: Seq<u8>) -> Option<Parts> {
    match announced(file) {
        None => None,
        Some(len) => if 8 + len > file.len() {
            None
        } else {
            match parsed(head_text(file, len), MAGIC_V2@) {
                Some(Some(map)) => Some(map),
                _ => None,
            }
        },
    }
}

/// What the map of a smart image tells, above what is known of any file.
pub open spec fn smart_learned(known: Learned, map: Parts) -> Learned {
    Learned {
        info: ImageInfo {
            uncompressed: Some(map.size),
            smart: Some(SmartInfo { disk_size: map.size, used: total(map.extents) as u64 }),
            ..known.info
        },
        map: Some(map),
        ..known
    }
}

/// What a file's headers tell of it. Damaged ones just stay unknown. `zip` is the size of the
/// first file in a zip archive, if that was learned.
pub open spec fn learned(file: Seq<u8>, zip: Option<u64>) -> Learned {
    let format = format_in(start_of(file, 6));
    let size = file.len() as u64;
    let plain = Learned {
        info: ImageInfo { format, size, uncompressed: None, smart: None },
        map: None,
        xz: None,
    };
    match format {
        ImageFormat::Raw => Learned { info: ImageInfo { uncompressed: Some(size), ..plain.info }, ..plain },
        ImageFormat::Gzip => match gzip_map(file) {
            None => plain,
            Some(map) => smart_learned(plain, map),
        },
        ImageFormat::Xz => match xz_index_of(file) {
            Err(_) => plain,
            Ok(i) => Learned {
                info: ImageInfo { uncompressed: Some(i.uncompressed), ..plain.info },
                xz: Some(i),
                ..plain
            },
        },
        ImageFormat::Zstd => match frame_map(file) {
            None => Learned { info: ImageInfo { uncompressed: content_from(file, 0), ..plain.info }, ..plain },
            Some(map) => smart_learned(plain, map),
        },
        _ => Learned { info: ImageInfo { uncompressed: zip, ..plain.info }, ..plain },
    }
}

/// What is told of a file that is a zstd frame: that it is zstd, how big the file is, and the
/// size that the frame's header gives.
pub proof fn law_zstd_files_give_their_size(file: Seq<u8>, zip: Option<u64>)
    requires
        5 <= file.len() <= u64::MAX,
        file[0] == 0x28 && file[1] == 0xb5 && file[2] == 0x2f && file[3] == 0xfd,
    ensures
        learned(file, zip).info.format == ImageFormat::Zstd,
        learned(file, zip).info.size == file.len(),
        learned(file, zip).info.uncompressed == content_from(file, 0),
        learned(file, zip).info.smart is None,
        learned(file, zip).map is None,
{
    let head = start_of(file, 6);
    assert(head.subrange(0, 2) =~= seq![0x28u8, 0xb5]);
    assert(head.subrange(0, 2)[0] == 0x28);
    assert(head.len() >= 6 ==> head.subrange(0, 6)[0] == 0x28);
    assert(XZ_MAGIC@[0] == 0xfd);
    assert(head.subrange(0, 4) =~= ZSTD_MAGIC@);
    law_fields_are_numbers(file, 0);
    reveal_with_fuel(le_value, 5);
    assert(announced(file) is None);
}

/// Files of the other formats are told by how they start; what starts like none of them is a raw
/// image, which is as big unpacked as it is.
pub proof fn law_files_are_told_by_their_start(file: Seq<u8>, zip: Option<u64>)
    requires
        6 <= file.len() <= u64::MAX,
    ensures
        learned(file, zip).info.size == file.len(),
        file[0] == 0x1f && file[1] == 0x8b <==> learned(file, zip).info.format == ImageFormat::Gzip,
        file[0] == 0xfd && file[1] == 0x37 && file[2] == 0x7a && file[3] == 0x58 && file[4] == 0x5a && file[5] == 0
            <==> learned(file, zip).info.format == ImageFormat::Xz,
        (file[0] == 0x28 && file[1] == 0xb5 && file[2] == 0x2f && file[3] == 0xfd) || (0x50 <= file[0] <= 0x5f
            && file[1] == 0x2a && file[2] == 0x4d && file[3] == 0x18) <==> learned(file, zip).info.format
            == ImageFormat::Zstd,
        file[0] == 0x50 && file[1] == 0x4b && file[2] == 3 && file[3] == 4 <==> learned(file, zip).info.format
            == ImageFormat::Zip,
        learned(file, zip).info.format == ImageFormat::Raw ==> learned(file, zip).info.uncompressed == Some(
            file.len() as u64,
        ),
        learned(file, zip).info.format == ImageFormat::Zip ==> learned(file, zip).info.uncompressed == zip,
        learned(file, zip).info.format == ImageFormat::Raw || learned(file, zip).info.format == ImageFormat::Zip
            || learned(file, zip).info.format == ImageFormat::Xz ==> learned(file, zip).info.smart is None,
{
    let head = start_of(file, 6);
    assert(head == file.take(6));
    let two = head.subrange(0, 2);
    let four = head.subrange(0, 4);
    let three = head.subrange(1, 4);
    let six = head.subrange(0, 6);
    assert(two[0] == file[0] && two[1] == file[1]);
    assert(four[0] == file[0] && four[1] == file[1] && four[2] == file[2] && four[3] == file[3]);
    assert(three[0] == file[1] && three[1] == file[2] && three[2] == file[3]);
    assert(six[0] == file[0] && six[1] == file[1] && six[2] == file[2] && six[3] == file[3] && six[4] == file[4]
        && six[5] == file[5]);
    assert(holds(head, 0, seq![0x1f, 0x8b]) <==> two =~= seq![0x1fu8, 0x8b]);
    assert(holds(head, 0, XZ_MAGIC@) <==> six =~= XZ_MAGIC@);
    assert(holds(head, 0, ZSTD_MAGIC@) <==> four =~= ZSTD_MAGIC@);
    assert(holds(head, 1, SKIPPABLE@) <==> three =~= SKIPPABLE@);
    assert(holds(head, 0, ZIP_MAGIC@) <==> four =~= ZIP_MAGIC@);
}

proof fn lemma_zero_from(p: Seq<u8>, b: Seq<u8>, at: int)
    requires
        p.len() <= b.len(),
        b.take(p.len() as int) == p,
        0 <= at <= p.len(),
    ensures
        at <= zero_from(p, at) <= p.len(),
        zero_from(p, at) < p.len() ==> zero_from(b, at) == zero_from(p, at),
    decreases p.len() - at,
{
    if at < p.len() {
        assert(b.take(p.len() as int)[at] == b[at]);
        if p[at] != 0 {
            lemma_zero_from(p, b, at + 1);
        }
    }
}

/// A member header that was read whole stays what it is, whatever comes after it.
pub proof fn law_header_stands_alone(p: Seq<u8>, b: Seq<u8>)
    requires
        p.len() <= b.len(),
        b.take(p.len() as int) == p,
        member_of(p) is Ok,
    ensures
        member_of(b) == member_of(p),
{
    let n = p.len() as int;
    assert forall|i: int| 0 <= i < n implies p[i] == b[i] by {
        assert(b.take(n)[i] == b[i]);
    }
    let x = extra_end(p)->Ok_0;
    assert(extra_end(b) == extra_end(p));
    lemma_zero_from(p, b, x);
    let name = flagged_end(p, x, 0x08, 0x1_0000)->Ok_0;
    assert(flagged_end(b, x, 0x08, 0x1_0000) == flagged_end(p, x, 0x08, 0x1_0000));
    lemma_zero_from(p, b, name);
    let c = flagged_end(p, name, 0x10, MAP_MAX as int)->Ok_0;
    assert(flagged_end(b, name, 0x10, MAP_MAX as int) == flagged_end(p, name, 0x10, MAP_MAX as int));
    if p[3] & 0x04 != 0 {
        assert(b.subrange(12, x) =~= p.subrange(12, x));
    }
    if p[3] & 0x10 != 0 {
        assert(b.subrange(name, c - 1) =~= p.subrange(name, c - 1));
    }
}

/// The first bytes of the file, `n` of them at most.
fn start(size: u64, have: &Loaded, n: usize) -> (r: Result<Vec<u8>, Stop>)
    requires
        n > 0,
    ensures
        match r {
            Ok(v) => forall|file: Seq<u8>| #[trigger]
                have.shows(plain(size), file) ==> v@ == start_of(file, n as nat),
            Err(Stop::Failed(_)) => false,
            Err(Stop::Need { offset, len }) => have.lacks(plain(size), offset, len),
        },
{
    let len: usize = if size < n as u64 {
        size as usize
    } else {
        n
    };
    if len == 0 {
        let v: Vec<u8> = Vec::new();
        proof {
            assert forall|file: Seq<u8>| #[trigger] have.shows(plain(size), file) implies v@ == start_of(
                file,
                n as nat,
            ) by {
                assert(v@ =~= file);
            }
        }
        return Ok(v);
    }
    match have.get(0, len) {
        Some(v) => {
            proof {
                assert forall|file: Seq<u8>| #[trigger] have.shows(plain(size), file) implies v@ == start_of(
                    file,
                    n as nat,
                ) by {
                    assert(file.subrange(0, len as int) =~= start_of(file, n as nat));
                }
            }
            Ok(v)
        },
        None => Err(Stop::Need { offset: 0, len }),
    }
}

fn smart_map(size: u64, have: &Loaded) -> (r: Result<Option<SpaceMap>, Stop>)
    ensures
        match r {
            Ok(Some(m)) => m@.wf() && forall|file: Seq<u8>| #[trigger]
                have.shows(plain(size), file) ==> gzip_map(file) == Some(m@),
            Ok(None) => forall|file: Seq<u8>| #[trigger]
                have.shows(plain(size), file) ==> gzip_map(file) is None,
            Err(Stop::Failed(_)) => false,
            Err(Stop::Need { offset, len }) => have.lacks(plain(size), offset, len),
        },
{
    let look: Vec<u8> = match start(size, have, HEADER_LOOK) {
        Ok(v) => v,
        Err(s) => {
            return Err(s);
        },
    };
    let header: Result<Header, Error> = match read_header(&look) {
        Ok(h) => {
            proof {
                assert forall|file: Seq<u8>| #[trigger] have.shows(plain(size), file) implies member_of(
                    start_of(file, HEADER_MAX as nat),
                ) == Ok::<Member, Fault>(h@) by {
                    let all = start_of(file, HEADER_MAX as nat);
                    assert(all.take(look@.len() as int) =~= look@);
                    law_header_stands_alone(look@, all);
                }
            }
            Ok(h)
        },
        Err(_) => match start(size, have, HEADER_MAX) {
            Ok(v) => read_header(&v),
            Err(s) => {
                return Err(s);
            },
        },
    };
    match header {
        Err(_) => Ok(None),
        Ok(h) => match h.comment {
            None => Ok(None),
            Some(text) => match SpaceMap::parse(&text, MAGIC_V1) {
                Some(Ok(map)) => {
                    proof {
                        law_parsed_maps_are_in_order(text@, MAGIC_V1@);
                    }
                    Ok(Some(map))
                },
                _ => Ok(None),
            },
        },
    }
}

/// The map of a smart image of version 2, if the file is one.
fn map_in_frame(size: u64, have: &Loaded) -> (r: Result<Option<SpaceMap>, Stop>)
    ensures
        match r {
            Ok(Some(m)) => m@.wf() && forall|file: Seq<u8>| #[trigger]
                have.shows(plain(size), file) ==> frame_map(file) == Some(m@),
            Ok(None) => forall|file: Seq<u8>| #[trigger]
                have.shows(plain(size), file) ==> frame_map(file) is None,
            Err(Stop::Failed(_)) => false,
            Err(Stop::Need { offset, len }) => have.lacks(plain(size), offset, len),
        },
{
    let first: Vec<u8> = match start(size, have, 8) {
        Ok(v) => v,
        Err(s) => {
            return Err(s);
        },
    };
    proof {
        assert forall|file: Seq<u8>| #[trigger] have.shows(plain(size), file) implies announced(first@) == announced(
            file,
        ) by {
            assert(first@ == start_of(file, 8));
        }
    }
    let whole: u64 = match head_len(&first) {
        Some(whole) => whole,
        None => {
            return Ok(None);
        },
    };
    if whole > size {
        return Ok(None);
    }
    let head: Vec<u8> = match start(size, have, whole as usize) {
        Ok(v) => v,
        Err(s) => {
            return Err(s);
        },
    };
    proof {
        assert forall|file: Seq<u8>| #[trigger] have.shows(plain(size), file) implies {
            &&& announced(head@) == announced(file)
            &&& head_text(head@, announced(file)->0) == head_text(file, announced(file)->0)
            &&& head@.len() == whole
        } by {
            assert(head@ == start_of(file, whole as nat));
            assert(head_text(head@, announced(file)->0) =~= head_text(file, announced(file)->0));
        }
    }
    match read_head(&head) {
        Some(Head { map: Ok(map), .. }) => {
            proof {
                law_parsed_maps_are_in_order(head_text(head@, announced(head@)->0), MAGIC_V2@);
            }
            Ok(Some(map))
        },
        _ => Ok(None),
    }
}

/// Detects the format of a file of `size` bytes by its magic bytes and learns what is cheap to
/// learn: reads only headers (the end of the file for xz). Damaged metadata just stays
/// unknown; the restore reports those errors. `zip` is the size of the first file in a zip
/// archive, if that was learned.
pub fn inspect(size: u64, have: &Loaded, zip: Option<u64>) -> (r: Result<Image, Stop>)
    ensures
        match r {
            Ok(i) => i.wf() && forall|file: Seq<u8>| #[trigger]
                have.shows(plain(size), file) ==> i@ == learned(file, zip),
            Err(Stop::Failed(_)) => false,
            Err(Stop::Need { offset, len }) => have.lacks(plain(size), offset, len),
        },
{
    let head: Vec<u8> = match start(size, have, 6) {
        Ok(v) => v,
        Err(s) => {
            return Err(s);
        },
    };
    let format: ImageFormat = format_of(&head);
    let mut image: Image = Image {
        info: ImageInfo { format, size, uncompressed: None, smart: None },
        map: None,
        xz: None,
    };
    match format {
        ImageFormat::Raw => {
            image.info.uncompressed = Some(size);
        },
        ImageFormat::Gzip => match smart_map(size, have) {
            Ok(None) => {},
            Ok(Some(map)) => {
                proof {
                    lemma_total_fits(map.extents@, map.size as int);
                }
                image.info.uncompressed = Some(map.size);
                image.info.smart = Some(SmartInfo { disk_size: map.size, used: map.used() });
                image.map = Some(map);
            },
            Err(s) => {
                return Err(s);
            },
        },
        ImageFormat::Xz => match xz_index(size, have) {
            Ok(i) => {
                image.info.uncompressed = Some(i.uncompressed);
                image.xz = Some(i);
            },
            Err(Stop::Failed(_)) => {},
            Err(Stop::Need { offset, len }) => {
                return Err(Stop::Need { offset, len });
            },
        },
        ImageFormat::Zstd => match map_in_frame(size, have) {
            Ok(Some(map)) => {
                proof {
                    lemma_total_fits(map.extents@, map.size as int);
                }
                image.info.uncompressed = Some(map.size);
                image.info.smart = Some(SmartInfo { disk_size: map.size, used: map.used() });
                image.map = Some(map);
            },
            Ok(None) => match zstd_content_size(size, have) {
                Ok(n) => {
                    image.info.uncompressed = n;
                },
                Err(s) => {
                    return Err(s);
                },
            },
            Err(s) => {
                return Err(s);
            },
        },
        _ => {
            image.info.uncompressed = zip;
        },
    }
    Ok(image)
}

/// The first entry of a zip archive that is a file (not a folder): for each entry, whether it
/// is a folder, None if it could not be read.
pub open spec fn first_entry(entries: Seq<Option<bool>>, from: int) -> Option<int>
    decreases entries.len() - from,
{
    if from >= entries.len() {
        None
    } else if entries[from] == Some(false) {
        Some(from)
    } else {
        first_entry(entries, from + 1)
    }
}

pub fn first_file(entries: &[Option<bool>]) -> (r: Option<usize>)
    ensures
        match r {
            Some(i) => first_entry(entries@, 0) == Some(i as int),
            None => first_entry(entries@, 0) is None,
        },
{
    let mut i: usize = 0;
    while i < entries.len()
        invariant
            i <= entries@.len(),
            first_entry(entries@, 0) == first_entry(entries@, i as int),
        decreases entries@.len() - i,
    {
        match entries[i] {
            Some(false) => {
                return Some(i);
            },
            _ => {},
        }
        i = i + 1;
    }
    None
}

/// How an image is restored.
#[derive(Clone, Copy, Debug, PartialEq, Eq, Structural)]
pub enum Way {
    /// A smart image: only its used parts are written.
    Smart,
    /// A drive or a file, as it is.
    Raw,
    Gzip,
    /// With so many threads.
    Xz(u32),
    Zstd,
    Zip,
    /// A format of the `formats` module.
    Other,
}

pub open spec fn way_of(i: Learned, cpus: u64) -> Way {
    if i.map is Some {
        Way::Smart
    } else {
        match i.info.format {
            ImageFormat::Raw => Way::Raw,
            ImageFormat::Gzip => Way::Gzip,
            ImageFormat::Xz => Way::Xz(
                match i.xz {
                    Some(x) => workers_of(x, cpus),
                    None => 1,
                },
            ),
            ImageFormat::Zstd => Way::Zstd,
            ImageFormat::Zip => Way::Zip,
            _ => Way::Other,
        }
    }
}

/// How an image is restored on a machine with that many CPUs.
pub fn way(i: &Image, cpus: u64) -> (w: Way)
    ensures
        w == way_of(i@, cpus),
{
    if i.map.is_some() {
        return Way::Smart;
    }
    match i.info.format {
        ImageFormat::Raw => Way::Raw,
        ImageFormat::Gzip => Way::Gzip,
        ImageFormat::Xz => match &i.xz {
            Some(x) => Way::Xz(xz_workers(x, cpus)),
            None => Way::Xz(1),
        },
        ImageFormat::Zstd => Way::Zstd,
        ImageFormat::Zip => Way::Zip,
        _ => Way::Other,
    }
}

/// Checks the checksum at the end of a zstd frame, if it has one and one was computed.
pub fn zstd_frame_end(stored: Option<u32>, computed: Option<u32>) -> (r: Result<(), Error>)
    ensures
        r is Err <==> stored is Some && computed is Some && stored != computed,
        r matches Err(e) ==> e@ == bad_fault("zstd checksum mismatch"@),
{
    match (stored, computed) {
        (Some(a), Some(b)) => {
            if a != b {
                return Err(bad("zstd checksum mismatch"));
            }
        },
        _ => {},
    }
    Ok(())
}

// Smart images of version 1: gzip members, those of free space skipped.

/// Bytes and where they go on the target.
pub struct Put {
    pub pos: u64,
    pub data: Vec<u8>,
}

/// Every byte of some puts, with its place.
pub open spec fn placed(puts: Seq<(int, Seq<u8>)>) -> Seq<(int, u8)>
    decreases puts.len(),
{
    if puts.len() == 0 {
        Seq::empty()
    } else {
        placed(puts.drop_last()) + spread(puts.last().0, puts.last().1)
    }
}

/// Bytes with their places, from `pos` on.
pub open spec fn spread(pos: int, data: Seq<u8>) -> Seq<(int, u8)> {
    Seq::new(data.len(), |i: int| (pos + i, data[i]))
}

pub open spec fn put_views(puts: Seq<Put>) -> Seq<(int, Seq<u8>)> {
    puts.map_values(|p: Put| (p.pos as int, p.data@))
}

/// The bytes of `data`, which starts at `pos` on the drive, that the map holds, each with its
/// place.
pub open spec fn used_bytes(extents: Seq<Extent>, pos: int, data: Seq<u8>) -> Seq<(int, u8)>
    decreases data.len(),
{
    if data.len() == 0 {
        Seq::empty()
    } else {
        let before = used_bytes(extents, pos, data.drop_last());
        let at = pos + data.len() - 1;
        if any_holds(extents, at) {
            before.push((at, data.last()))
        } else {
            before
        }
    }
}

pub(crate) proof fn lemma_used_run(extents: Seq<Extent>, pos: int, data: Seq<u8>, n: int, used: bool)
    requires
        0 <= n <= data.len(),
        forall|p: int| pos + n <= p < pos + data.len() ==> any_holds(extents, p) == used,
    ensures
        used_bytes(extents, pos, data) == used_bytes(extents, pos, data.take(n)) + (if used {
            spread(pos + n, data.skip(n))
        } else {
            Seq::empty()
        }),
    decreases data.len() - n,
{
    if n == data.len() {
        assert(data.take(n) =~= data);
        assert(spread(pos + n, data.skip(n)) =~= Seq::<(int, u8)>::empty());
        assert(used_bytes(extents, pos, data) + Seq::<(int, u8)>::empty() =~= used_bytes(extents, pos, data));
    } else {
        let rest = data.drop_last();
        lemma_used_run(extents, pos, rest, n, used);
        assert(rest.take(n) =~= data.take(n));
        assert(any_holds(extents, pos + data.len() - 1) == used);
        if used {
            let a = used_bytes(extents, pos, data.take(n));
            assert(spread(pos + n, data.skip(n)) =~= spread(pos + n, rest.skip(n)).push(
                (pos + data.len() - 1, data.last()),
            ));
            assert((a + spread(pos + n, rest.skip(n))).push((pos + data.len() - 1, data.last())) =~= a + spread(
                pos + n,
                data.skip(n),
            ));
        }
    }
}

/// Does every put hold something?
pub open spec fn no_empty_put(puts: Seq<Put>) -> bool {
    forall|k: int| 0 <= k < puts.len() ==> (#[trigger] puts[k]).data@.len() > 0
}

/// The used bytes of `data`, which starts at `pos` on the drive, as they go to the target.
pub(crate) fn used_puts(cursor: &mut Cursor, pos: u64, data: &[u8]) -> (puts: Vec<Put>)
    requires
        old(cursor).wf(pos as int),
        pos + data@.len() <= u64::MAX,
    ensures
        final(cursor).wf(pos + data@.len()),
        final(cursor).extents == old(cursor).extents,
        placed(put_views(puts@)) == used_bytes(old(cursor).extents@, pos as int, data@),
        no_empty_put(puts@),
{
    let ghost extents = cursor.extents@;
    let mut puts: Vec<Put> = Vec::new();
    let mut at: usize = 0;
    proof {
        assert(put_views(puts@) =~= Seq::<(int, Seq<u8>)>::empty());
        assert(data@.take(0) =~= Seq::<u8>::empty());
    }
    while at < data.len()
        invariant
            at <= data@.len(),
            pos + data@.len() <= u64::MAX,
            cursor.wf(pos + at),
            cursor.extents == old(cursor).extents,
            extents == cursor.extents@,
            placed(put_views(puts@)) == used_bytes(extents, pos as int, data@.take(at as int)),
            no_empty_put(puts@),
        decreases data@.len() - at,
    {
        proof {
            law_runs_follow_the_map(extents, u64::MAX as int, pos + at, data@.len() - at);
        }
        let here: u64 = pos + at as u64;
        let (used, len) = cursor.run(here, (data.len() - at) as u64);
        let run: usize = len as usize;
        proof {
            let part = data@.take(at + run);
            lemma_used_run(extents, pos as int, part, at as int, used);
            assert(part.take(at as int) =~= data@.take(at as int));
            assert(part.skip(at as int) =~= data@.subrange(at as int, at + run));
        }
        if used {
            let piece: Vec<u8> = bytes_at(data, at, run);
            let ghost old_puts = puts@;
            puts.push(Put { pos: here, data: piece });
            proof {
                assert(put_views(puts@).drop_last() =~= put_views(old_puts));
                assert(put_views(puts@).last() == (pos + at, data@.subrange(at as int, at + run)));
            }
        } else {
            proof {
                let u = used_bytes(extents, pos as int, data@.take(at as int));
                assert(u + Seq::<(int, u8)>::empty() =~= u);
            }
        }
        at = at + run;
    }
    proof {
        assert(data@.take(data@.len() as int) =~= data@);
    }
    puts
}

pub open spec fn damaged_text(what: Seq<char>) -> Seq<char> {
    "the smart image is damaged ("@ + what + ")"@
}

/// The image is damaged, and what is wrong with it.
pub fn damaged(what: &str) -> (s: String)
    ensures
        s@ == damaged_text(what@),
{
    let mut s: String = "the smart image is damaged (".to_owned();
    s.append(what);
    s.append(")");
    s
}

/// Where in the image a restore is.
#[derive(Clone, Copy, Debug, PartialEq, Eq, Structural)]
pub enum Place {
    /// Where a member starts, or the image ends.
    Between,
    /// In the compressed data of a member.
    Data,
    /// At the checksum and size after it.
    Trailer,
}

/// How far a restore has come.
#[derive(Clone, Copy, Debug, PartialEq, Eq, Structural)]
pub struct Going {
    pub place: Place,
    /// On the drive.
    pub pos: u64,
    /// In the image.
    pub read: u64,
    /// The checksum and the size of the member's data so far.
    pub crc: u32,
    pub amount: u32,
}

pub open spec fn capped(n: int) -> u64 {
    if n > u64::MAX {
        u64::MAX
    } else {
        n as u64
    }
}

/// Is a member all free space, by the sizes in its header? Then it is skipped.
pub open spec fn skippable(m: Parts, pos: u64, h: Member) -> bool {
    match h.sizes {
        None => false,
        Some((csize, len)) => len > 0 && csize >= h.len + 8 && pos + len <= m.size && run_at(
            m.extents,
            pos as int,
            len as int,
        ) == (false, len as int),
    }
}

/// After a member's header: past the member if it is skipped (and how many bytes of the image
/// that passes over), else at its data.
pub open spec fn begun(m: Parts, g: Going, h: Member) -> (Going, int) {
    if skippable(m, g.pos, h) {
        let (csize, len) = h.sizes->0;
        (
            Going { pos: (g.pos + len) as u64, read: capped(g.read + csize), ..g },
            csize - h.len,
        )
    } else {
        (
            Going { place: Place::Data, read: capped(g.read + h.len as int), crc: 0, amount: 0, ..g },
            0,
        )
    }
}

/// After `n` bytes of the image gave `data`; `over` if that is the end of the member's data.
pub open spec fn fed(g: Going, n: int, data: Seq<u8>, over: bool) -> Going {
    Going {
        place: if over {
            Place::Trailer
        } else {
            g.place
        },
        pos: (g.pos + data.len()) as u64,
        read: capped(g.read + n),
        crc: crc32_of(g.crc, data),
        amount: ((g.amount + data.len()) % 0x1_0000_0000) as u32,
    }
}

/// The checksum and size after a member's data, as it should be.
pub open spec fn trailer_of(g: Going) -> Seq<u8> {
    le32_bytes(g.crc) + le32_bytes(g.amount)
}

#[verifier::external_type_specification]
#[verifier::external_body]
pub struct ExInflate(flate2::Decompress);

/// The bytes that a `flate2::Decompress` has taken in so far.
pub uninterp spec fn inflate_taken(z: flate2::Decompress) -> Seq<u8>;

/// The bytes that a `flate2::Decompress` has written so far.
pub uninterp spec fn inflate_made(z: flate2::Decompress) -> Seq<u8>;

/// Is a `flate2::Decompress` still at work: has it neither come to the end of its data nor
/// failed?
pub uninterp spec fn inflate_at_work(z: flate2::Decompress) -> bool;

/// What a `flate2::Decompress` makes of data that starts with raw deflate data.
pub uninterp spec fn inflate_stream(data: Seq<u8>) -> Streamed;

/// `flate2::Decompress::new(false)`: a decoder at the start of raw deflate data, which has
/// taken nothing in and written nothing.
#[verifier::external_body]
fn new_inflate() -> (z: flate2::Decompress)
    ensures
        inflate_taken(z) == Seq::<u8>::empty(),
        inflate_made(z) == Seq::<u8>::empty(),
        inflate_at_work(z),
{
    flate2::Decompress::new(false)
}

/// One `flate2::Decompress::decompress` of `input` into a buffer of `room` bytes: how much of
/// the input it took, what it wrote, and whether that is the end of the data; None if the data
/// is corrupt.
///
/// The decoder goes by the data alone, however that is cut. It has then taken that much more in
/// and written that much more, which is what comes first of what the data gives. With room it
/// does nothing only where there is no input and it wants more, so that what it was given is
/// the start of such data. At the end of the data it has taken all of that, and nothing behind
/// it. Where it fails, it fails on what it was given, whatever comes after that. How much it
/// takes and writes in one call is not stated.
#[verifier::external_body]
fn inflate_some(z: &mut flate2::Decompress, input: &[u8], room: usize) -> (r: Option<(usize, Vec<u8>, bool)>)
    requires
        input@.len() <= MOST_AT_ONCE,
        room <= MOST_AT_ONCE,
        inflate_at_work(*old(z)),
    ensures
        match r {
            Some((used, out, over)) => {
                let taken = inflate_taken(*final(z));
                let made = inflate_made(*final(z));
                &&& used <= input@.len()
                &&& out@.len() <= room
                &&& taken == inflate_taken(*old(z)) + input@.take(used as int)
                &&& made == inflate_made(*old(z)) + out@
                &&& forall|more: Seq<u8>| begins(streamed_bytes(#[trigger] inflate_stream(taken + more)), made)
                &&& over ==> forall|more: Seq<u8>| #[trigger]
                    inflate_stream(taken + more) == (Streamed::Whole { len: taken.len(), made })
                &&& !over ==> inflate_at_work(*final(z))
                &&& !over && used == 0 && out@.len() == 0 && room > 0 ==> input@.len() == 0 && inflate_stream(taken)
                    == (Streamed::Unfinished { made })
            },
            None => forall|more: Seq<u8>|
                (#[trigger] inflate_stream((inflate_taken(*old(z)) + input@) + more)) is Refused,
        },
{
    let mut out = vec![0u8; room];
    let (used, made) = (z.total_in(), z.total_out());
    let status = z.decompress(input, &mut out, flate2::FlushDecompress::None).ok()?;
    out.truncate((z.total_out() - made) as usize);
    Some(((z.total_in() - used) as usize, out, status == flate2::Status::StreamEnd))
}

/// What a step of a restore gives.
pub enum Step {
    /// More of the image is wanted before it goes on.
    More,
    /// `used` bytes of the image were taken, `skip` more are passed over, and `puts` go to the
    /// target.
    On { used: usize, skip: u64, puts: Vec<Put> },
    /// The image has come to its end.
    End,
}

/// A smart image of version 1 on its way to a drive.
pub struct Smart<'a> {
    map: &'a SpaceMap,
    cursor: Cursor<'a>,
    going: Going,
    z: Option<flate2::Decompress>,
}

impl<'a> Smart<'a> {
    pub closed spec fn map(&self) -> Parts {
        self.map@
    }

    pub closed spec fn going(&self) -> Going {
        self.going
    }

    /// What the decoder was given of the data of the member it is in.
    pub closed spec fn taken(&self) -> Seq<u8> {
        match self.z {
            Some(z) => inflate_taken(z),
            None => Seq::empty(),
        }
    }

    /// What the decoder made of that.
    pub closed spec fn made(&self) -> Seq<u8> {
        match self.z {
            Some(z) => inflate_made(z),
            None => Seq::empty(),
        }
    }

    /// How far the decoder is in the data of the member it is in.
    pub open spec fn decoded(&self) -> Decoded {
        Decoded { taken: self.taken(), made: self.made() }
    }

    /// The cursor goes by the map, and stands where the restore is.
    pub closed spec fn in_shape(&self) -> bool {
        &&& self.map@.wf()
        &&& self.cursor.wf(self.going.pos as int)
        &&& self.cursor.extents@ == self.map.extents@
    }

    /// And inside a member's data, there is a decoder at work.
    pub closed spec fn wf(&self) -> bool {
        &&& self.in_shape()
        &&& self.going.place == Place::Data ==> (self.z matches Some(z) && inflate_at_work(z))
    }

    pub fn new(map: &'a SpaceMap) -> (s: Smart<'a>)
        requires
            map@.wf(),
        ensures
            s.wf(),
            s.map() == map@,
            s.going() == (Going { place: Place::Between, pos: 0, read: 0, crc: 0, amount: 0 }),
    {
        Smart {
            map,
            cursor: Cursor::new(map),
            going: Going { place: Place::Between, pos: 0, read: 0, crc: 0, amount: 0 },
            z: None,
        }
    }

    /// Goes on after a member's header: how many bytes of the image to pass over.
    pub fn begin(&mut self, h: &Header) -> (skip: u64)
        requires
            old(self).wf(),
            old(self).going().place == Place::Between,
        ensures
            final(self).wf(),
            final(self).map() == old(self).map(),
            (final(self).going(), skip as int) == begun(old(self).map(), old(self).going(), h@),
            final(self).going().place == Place::Data ==> final(self).taken().len() == 0
                && final(self).made().len() == 0,
    {
        if let Some((csize, len)) = h.sizes {
            if len > 0 && h.len <= u64::MAX - 8 && csize >= h.len + 8 && len <= u64::MAX - self.going.pos
                && self.going.pos + len <= self.map.size && self.cursor.is_free(self.going.pos, len) {
                self.going.pos = self.going.pos + len;
                self.going.read = self.going.read.saturating_add(csize);
                return csize - h.len;
            }
        }
        self.going.place = Place::Data;
        self.going.read = self.going.read.saturating_add(h.len);
        self.going.crc = 0;
        self.going.amount = 0;
        self.z = Some(new_inflate());
        0
    }

    /// Takes decoded data of a member, which `n` bytes of the image gave: what goes to the
    /// target. `over` if that is the end of the member's data.
    pub fn data(&mut self, n: usize, data: &[u8], over: bool) -> (puts: Vec<Put>)
        requires
            old(self).in_shape(),
            old(self).going().place == Place::Data,
            old(self).going().pos + data@.len() <= u64::MAX,
        ensures
            final(self).in_shape(),
            old(self).wf() || over ==> final(self).wf(),
            final(self).map() == old(self).map(),
            final(self).going() == fed(old(self).going(), n as int, data@, over),
            final(self).taken() == old(self).taken(),
            final(self).made() == old(self).made(),
            placed(put_views(puts@)) == used_bytes(
                old(self).map().extents,
                old(self).going().pos as int,
                data@,
            ),
    {
        let ghost before = self.going;
        let pos: u64 = self.going.pos;
        let puts: Vec<Put> = used_puts(&mut self.cursor, pos, data);
        self.going.pos = pos + data.len() as u64;
        self.going.crc = crc32(self.going.crc, data);
        self.going.amount = ((self.going.amount as u64 + data.len() as u64 % 0x1_0000_0000) % 0x1_0000_0000) as u32;
        proof {
            let a = before.amount as int;
            let l = data@.len() as int;
            assert((a + l % 0x1_0000_0000) % 0x1_0000_0000 == (a + l) % 0x1_0000_0000);
        }
        self.going.read = self.going.read.saturating_add(n as u64);
        if over {
            self.going.place = Place::Trailer;
        }
        puts
    }

    /// Checks the eight bytes after a member's data.
    pub fn trailer(&mut self, b: &[u8]) -> (r: Result<(), String>)
        requires
            old(self).wf(),
            old(self).going().place == Place::Trailer,
            b@.len() == 8,
        ensures
            final(self).wf(),
            final(self).map() == old(self).map(),
            match r {
                Ok(()) => b@ == trailer_of(old(self).going()) && final(self).going() == (Going {
                    place: Place::Between,
                    read: capped(old(self).going().read + 8),
                    ..old(self).going()
                }),
                Err(e) => b@ != trailer_of(old(self).going()) && e@ == damaged_text("checksum mismatch"@),
            },
    {
        let mut want: Vec<u8> = Vec::new();
        push_le32(&mut want, self.going.crc);
        push_le32(&mut want, self.going.amount);
        proof {
            assert(want@ =~= trailer_of(self.going));
            assert(b@.subrange(0, 8) =~= b@);
        }
        if !has_bytes(b, 0, &want) {
            return Err(damaged("checksum mismatch"));
        }
        self.going.place = Place::Between;
        self.going.read = self.going.read.saturating_add(8);
        Ok(())
    }

    /// Checks that a restore that has come to the end of the image, a file of `size` bytes, has
    /// come to the end of the drive, too.
    pub fn finish(&self, size: u64) -> (r: Result<(), String>)
        requires
            self.wf(),
        ensures
            r is Ok <==> self.going().pos == self.map().size && self.going().read == size,
            r matches Err(e) ==> e@ == damaged_text("it ends too early or too late"@),
    {
        if self.going.pos != self.map.size || self.going.read != size {
            return Err(damaged("it ends too early or too late"));
        }
        Ok(())
    }

    fn step_between(&mut self, input: &[u8], ended: bool) -> (r: Result<Step, String>)
        requires
            old(self).wf(),
            old(self).going().place == Place::Between,
        ensures
            final(self).wf(),
            final(self).map() == old(self).map(),
            at_member(old(self).map(), old(self).going(), input@, ended, r, final(self).going()),
            final(self).going().place == Place::Data ==> final(self).taken().len() == 0
                && final(self).made().len() == 0,
    {
        if input.len() == 0 && ended {
            return Ok(Step::End);
        }
        match read_header(input) {
            Ok(h) => {
                let skip: u64 = self.begin(&h);
                let puts: Vec<Put> = Vec::new();
                proof {
                    lemma_header_fits(input@);
                    assert(put_views(puts@) =~= Seq::<(int, Seq<u8>)>::empty());
                }
                Ok(Step::On { used: h.len as usize, skip, puts })
            },
            Err(e) => {
                if !ended && input.len() < HEADER_MAX {
                    return Ok(Step::More);
                }
                Err(damaged(e.message()))
            },
        }
    }

    fn step_data(&mut self, input: &[u8], ended: bool, room: usize) -> (r: Result<Step, String>)
        requires
            old(self).wf(),
            old(self).going().place == Place::Data,
            room > 0,
        ensures
            r is Ok ==> final(self).wf(),
            final(self).map() == old(self).map(),
            in_member(
                old(self).map(),
                old(self).going(),
                old(self).decoded(),
                input@,
                ended,
                room as nat,
                r,
                final(self).going(),
                final(self).decoded(),
            ),
    {
        match self.z.take() {
            None => {
                assert(false);
                Err("couldn't read the image: corrupt deflate stream".to_owned())
            },
            Some(mut z) => {
                let n: usize = if input.len() < MOST_AT_ONCE {
                    input.len()
                } else {
                    MOST_AT_ONCE
                };
                let space: usize = if room < MOST_AT_ONCE {
                    room
                } else {
                    MOST_AT_ONCE
                };
                let part: &[u8] = vstd::slice::slice_subrange(input, 0, n);
                let ghost taken0 = inflate_taken(z);
                let ghost made0 = inflate_made(z);
                let step: Option<(usize, Vec<u8>, bool)> = inflate_some(&mut z, part, space);
                self.z = Some(z);
                let (used, out, over) = match step {
                    Some(s) => s,
                    None => {
                        proof {
                            assert((taken0 + part@) + input@.skip(n as int) =~= taken0 + input@);
                            assert(inflate_stream((taken0 + part@) + input@.skip(n as int)) is Refused);
                        }
                        return Err("couldn't read the image: corrupt deflate stream".to_owned());
                    },
                };
                proof {
                    let took = input@.take(used as int);
                    assert(part@.take(used as int) =~= took);
                    assert((taken0 + took) + input@.skip(used as int) =~= taken0 + input@);
                    assert(begins(
                        streamed_bytes(inflate_stream((taken0 + took) + input@.skip(used as int))),
                        made0 + out@,
                    ));
                    if input@.len() == 0 {
                        assert(taken0 + took =~= taken0);
                        if out@.len() == 0 {
                            assert(made0 + out@ =~= made0);
                        }
                    }
                }
                if out.len() as u64 > u64::MAX - self.going.pos {
                    return Err(damaged("it ends too early or too late"));
                }
                if !over && used == 0 && out.len() == 0 {
                    if ended {
                        return Err(damaged("incomplete deflate stream"));
                    }
                    return Ok(Step::More);
                }
                let puts: Vec<Put> = self.data(used, &out, over);
                Ok(Step::On { used, skip: 0, puts })
            },
        }
    }

    /// Goes on with `input`, what comes next of the image; `ended` if that is all there is
    /// still to come. A member's data is decoded `room` bytes at most at a time.
    pub fn step(&mut self, input: &[u8], ended: bool, room: usize) -> (r: Result<Step, String>)
        requires
            old(self).wf(),
            room > 0,
        ensures
            r is Ok ==> final(self).wf(),
            final(self).map() == old(self).map(),
            old(self).going().place == Place::Between && final(self).going().place == Place::Data
                ==> final(self).taken().len() == 0 && final(self).made().len() == 0,
            match old(self).going().place {
                Place::Between => at_member(
                    old(self).map(),
                    old(self).going(),
                    input@,
                    ended,
                    r,
                    final(self).going(),
                ),
                Place::Data => in_member(
                    old(self).map(),
                    old(self).going(),
                    old(self).decoded(),
                    input@,
                    ended,
                    room as nat,
                    r,
                    final(self).going(),
                    final(self).decoded(),
                ),
                Place::Trailer => after_member(old(self).going(), input@, ended, r, final(self).going()),
            },
    {
        match self.going.place {
            Place::Between => self.step_between(input, ended),
            Place::Data => self.step_data(input, ended, room),
            Place::Trailer => {
                if input.len() < 8 {
                    if ended {
                        return Err(damaged("failed to fill whole buffer"));
                    }
                    return Ok(Step::More);
                }
                let b: Vec<u8> = bytes_at(input, 0, 8);
                assert(b@ =~= input@.take(8));
                match self.trailer(&b) {
                    Ok(()) => {
                        let puts: Vec<Put> = Vec::new();
                        assert(put_views(puts@) =~= Seq::<(int, Seq<u8>)>::empty());
                        Ok(Step::On { used: 8, skip: 0, puts })
                    },
                    Err(e) => Err(e),
                }
            },
        }
    }
}

proof fn lemma_header_fits(b: Seq<u8>)
    ensures
        member_of(b) matches Ok(m) ==> 0 < m.len <= b.len(),
{
    if let Ok(x) = extra_end(b) {
        if b.len() >= 10 {
            assert(b.take(b.len() as int) =~= b);
            lemma_zero_from(b, b, x);
            if let Ok(n) = flagged_end(b, x, 0x08, 0x1_0000) {
                lemma_zero_from(b, b, n);
            }
        }
    }
}

/// What a step does where a member starts.
pub open spec fn at_member(
    m: Parts,
    g: Going,
    input: Seq<u8>,
    ended: bool,
    r: Result<Step, String>,
    after: Going,
) -> bool {
    match r {
        Ok(Step::End) => input.len() == 0 && ended && after == g,
        Ok(Step::More) => !ended && input.len() < HEADER_MAX && member_of(input) is Err && after == g,
        Ok(Step::On { used, skip, puts }) => {
            &&& member_of(input) matches Ok(h)
            &&& used == h.len
            &&& used <= input.len()
            &&& (after, skip as int) == begun(m, g, h)
            &&& puts@.len() == 0
        },
        Err(e) => {
            &&& (ended && input.len() > 0) || (!ended && input.len() >= HEADER_MAX)
            &&& member_of(input) matches Err(f)
            &&& e@ == damaged_text(f.what)
        },
    }
}

/// What a decoder was given of a member's data, and what it made of that.
pub ghost struct Decoded {
    pub taken: Seq<u8>,
    pub made: Seq<u8>,
}

/// What a step does inside a member's data: the decoder takes more of the image and makes more
/// data of it, of which the used part goes to the target. At the end of the member, the data is
/// what the decoder makes of all it took. It fails only on data that the decoder refuses, on
/// data that ends before it is over, and past the last place a drive can have.
pub open spec fn in_member(
    m: Parts,
    g: Going,
    d: Decoded,
    input: Seq<u8>,
    ended: bool,
    room: nat,
    r: Result<Step, String>,
    after: Going,
    then_d: Decoded,
) -> bool {
    let stream = inflate_stream(d.taken + input);
    match r {
        Ok(Step::End) => false,
        Ok(Step::More) => {
            &&& !ended
            &&& input.len() == 0
            &&& inflate_stream(d.taken) == (Streamed::Unfinished { made: d.made })
            &&& after == g
            &&& then_d == d
        },
        Ok(Step::On { used, skip, puts }) => {
            &&& used <= input.len()
            &&& skip == 0
            &&& exists|data: Seq<u8>, over: bool|
                {
                    &&& g.pos + data.len() <= u64::MAX
                    &&& after == #[trigger] fed(g, used as int, data, over)
                    &&& placed(put_views(puts@)) == used_bytes(m.extents, g.pos as int, data)
                    &&& over || used > 0 || data.len() > 0
                    &&& data.len() <= room
                    &&& then_d == (Decoded { taken: d.taken + input.take(used as int), made: d.made + data })
                    &&& begins(streamed_bytes(stream), then_d.made)
                    &&& over ==> stream == (Streamed::Whole { len: then_d.taken.len(), made: then_d.made })
                }
        },
        Err(e) => {
            ||| stream is Refused && e@ == "couldn't read the image: corrupt deflate stream"@
            ||| g.pos + room > u64::MAX && e@ == damaged_text("it ends too early or too late"@)
            ||| ended && input.len() == 0 && inflate_stream(d.taken) == (Streamed::Unfinished { made: d.made }) && e@
                == damaged_text("incomplete deflate stream"@)
        },
    }
}

/// What a step does at the end of a member.
pub open spec fn after_member(g: Going, input: Seq<u8>, ended: bool, r: Result<Step, String>, after: Going) -> bool {
    match r {
        Ok(Step::End) => false,
        Ok(Step::More) => !ended && input.len() < 8 && after == g,
        Ok(Step::On { used, skip, puts }) => {
            &&& used == 8
            &&& input.len() >= 8
            &&& skip == 0
            &&& puts@.len() == 0
            &&& input.take(8) == trailer_of(g)
            &&& after == (Going { place: Place::Between, read: capped(g.read + 8), ..g })
        },
        Err(e) => if input.len() < 8 {
            ended && e@ == damaged_text("failed to fill whole buffer"@)
        } else {
            input.take(8) != trailer_of(g) && e@ == damaged_text("checksum mismatch"@)
        },
    }
}

/// A member that is skipped holds nothing that belongs on the drive.
pub proof fn law_skipped_members_hold_nothing(m: Parts, pos: u64, h: Member, data: Seq<u8>)
    requires
        m.wf(),
        skippable(m, pos, h),
        data.len() == (h.sizes->0).1,
    ensures
        used_bytes(m.extents, pos as int, data) == Seq::<(int, u8)>::empty(),
{
    law_runs_follow_the_map(m.extents, m.size as int, pos as int, data.len() as int);
    lemma_used_run(m.extents, pos as int, data, 0, false);
    assert(data.take(0) =~= Seq::<u8>::empty());
    assert(Seq::<(int, u8)>::empty() + Seq::<(int, u8)>::empty() =~= Seq::<(int, u8)>::empty());
}

/// Data that comes in two parts puts the same bytes in the same places as in one.
pub proof fn law_used_bytes_in_parts(extents: Seq<Extent>, pos: int, a: Seq<u8>, b: Seq<u8>)
    ensures
        used_bytes(extents, pos, a + b) == used_bytes(extents, pos, a) + used_bytes(extents, pos + a.len(), b),
    decreases b.len(),
{
    let first = used_bytes(extents, pos, a);
    if b.len() == 0 {
        assert(a + b =~= a);
        assert(first + Seq::<(int, u8)>::empty() =~= first);
    } else {
        law_used_bytes_in_parts(extents, pos, a, b.drop_last());
        assert((a + b).drop_last() =~= a + b.drop_last());
        let at = pos + a.len() + b.len() - 1;
        let rest = used_bytes(extents, pos + a.len(), b.drop_last());
        assert((first + rest).push((at, b.last())) =~= first + rest.push((at, b.last())));
    }
}

// Gathering.

/// Gathers the used bytes of a smart image into buffers of contiguous data.
pub struct Staging {
    /// Where the buffer goes on the target.
    start: u64,
    buf: Vec<u8>,
    chunk: usize,
}

impl Staging {
    pub closed spec fn wf(&self) -> bool {
        self.chunk > 0 && self.buf@.len() <= self.chunk && self.start + self.buf@.len() <= u64::MAX
    }

    pub closed spec fn chunk(&self) -> usize {
        self.chunk
    }

    /// The bytes that wait in the buffer, with their places.
    pub closed spec fn waiting(&self) -> Seq<(int, u8)> {
        spread(self.start as int, self.buf@)
    }

    pub fn new(chunk: usize) -> (s: Staging)
        requires
            chunk > 0,
        ensures
            s.wf(),
            s.chunk() == chunk,
            s.waiting() == Seq::<(int, u8)>::empty(),
    {
        let s: Staging = Staging { start: 0, buf: Vec::new(), chunk };
        assert(s.waiting() =~= Seq::<(int, u8)>::empty());
        s
    }

    /// Takes bytes that go to `pos`: the buffers that are full, or that they do not continue.
    pub fn put(&mut self, at: u64, data: &[u8]) -> (out: Vec<Put>)
        requires
            old(self).wf(),
            at + data@.len() <= u64::MAX,
        ensures
            final(self).wf(),
            final(self).chunk() == old(self).chunk(),
            placed(put_views(out@)) + final(self).waiting() == old(self).waiting() + spread(at as int, data@),
            forall|i: int| 0 <= i < out@.len() ==> 0 < (#[trigger] out@[i]).data@.len() <= old(self).chunk(),
    {
        let mut out: Vec<Put> = Vec::new();
        let mut done: usize = 0;
        let ghost first = self.waiting();
        proof {
            assert(put_views(out@) =~= Seq::<(int, Seq<u8>)>::empty());
            assert(placed(put_views(out@)) + self.waiting() =~= first + spread(at as int, data@.take(0)));
        }
        while done < data.len()
            invariant
                done <= data@.len(),
                at + data@.len() <= u64::MAX,
                self.wf(),
                self.chunk == old(self).chunk,
                first == old(self).waiting(),
                placed(put_views(out@)) + self.waiting() == first + spread(at as int, data@.take(done as int)),
                forall|i: int| 0 <= i < out@.len() ==> 0 < (#[trigger] out@[i]).data@.len() <= old(self).chunk(),
            decreases data@.len() - done,
        {
            let pos: u64 = at + done as u64;
            if self.buf.len() > 0 && (pos != self.start + self.buf.len() as u64 || self.buf.len() == self.chunk) {
                let ghost before = out@;
                let ghost waiting = self.waiting();
                match self.flush() {
                    Some(p) => {
                        out.push(p);
                        proof {
                            assert(put_views(out@).drop_last() =~= put_views(before));
                            assert(placed(put_views(out@)) =~= placed(put_views(before)) + waiting);
                            assert(placed(put_views(out@)) + self.waiting() =~= placed(put_views(before)) + waiting);
                        }
                    },
                    None => {},
                }
            }
            if self.buf.len() == 0 {
                self.start = pos;
            }
            let room: usize = self.chunk - self.buf.len();
            let left: usize = data.len() - done;
            let n: usize = if left < room {
                left
            } else {
                room
            };
            let ghost waiting = self.waiting();
            let ghost buf = self.buf@;
            push_bytes(&mut self.buf, vstd::slice::slice_subrange(data, done, done + n));
            proof {
                let part = data@.subrange(done as int, done + n);
                assert(self.waiting() =~= waiting + spread(pos as int, part)) by {
                    assert(self.start + buf.len() == pos);
                }
                assert(spread(at as int, data@.take(done + n)) =~= spread(at as int, data@.take(done as int))
                    + spread(pos as int, part));
                let o = placed(put_views(out@));
                let s = spread(at as int, data@.take(done as int));
                assert(o + (waiting + spread(pos as int, part)) =~= (o + waiting) + spread(pos as int, part));
                assert(first + (s + spread(pos as int, part)) =~= (first + s) + spread(pos as int, part));
            }
            done = done + n;
        }
        proof {
            assert(data@.take(data@.len() as int) =~= data@);
        }
        out
    }

    /// The buffer, if there is something in it.
    pub fn flush(&mut self) -> (r: Option<Put>)
        requires
            old(self).wf(),
        ensures
            final(self).wf(),
            final(self).chunk() == old(self).chunk(),
            final(self).waiting() == Seq::<(int, u8)>::empty(),
            match r {
                Some(p) => spread(p.pos as int, p.data@) == old(self).waiting() && 0 < p.data@.len()
                    <= old(self).chunk(),
                None => old(self).waiting() == Seq::<(int, u8)>::empty(),
            },
    {
        if self.buf.len() == 0 {
            assert(self.waiting() =~= Seq::<(int, u8)>::empty());
            return None;
        }
        let mut data: Vec<u8> = Vec::new();
        std::mem::swap(&mut data, &mut self.buf);
        assert(self.waiting() =~= Seq::<(int, u8)>::empty());
        Some(Put { pos: self.start, data })
    }
}

// What xz files hold, by the format.

/// A number as xz writes it: seven bits a byte, the low ones first, all bytes but the last marked.
pub open spec fn vli_bytes(n: nat) -> Seq<u8>
    decreases n,
{
    if n < 128 {
        seq![n as u8]
    } else {
        seq![(n % 128 + 128) as u8] + vli_bytes(n / 128)
    }
}

proof fn lemma_vli_bytes_len(n: nat, k: nat)
    requires
        n < power128(k),
        k >= 1,
    ensures
        1 <= vli_bytes(n).len() <= k,
    decreases k,
{
    reveal_with_fuel(power128, 2);
    if n >= 128 {
        lemma_vli_bytes_len(n / 128, (k - 1) as nat);
    }
}

proof fn lemma_vli_bytes_read(data: Seq<u8>, at: int, k: nat, n: nat)
    requires
        0 <= at,
        holds(data, at + k, vli_bytes(n)),
        k + vli_bytes(n).len() <= 9,
    ensures
        vli_len(data, at, k) == k + vli_bytes(n).len(),
        vli_value(data, at + k, vli_bytes(n).len()) == n,
    decreases n,
{
    let b = vli_bytes(n);
    let part = data.subrange(at + k, at + k + b.len());
    assert(part[0] == b[0]);
    assert(data[at + k] == b[0]);
    if n < 128 {
        reveal_with_fuel(vli_value, 2);
    } else {
        let rest = vli_bytes(n / 128);
        assert(data.subrange(at + k + 1, at + k + 1 + rest.len()) =~= part.skip(1));
        assert(b.skip(1) =~= rest);
        lemma_vli_bytes_read(data, at, k + 1, n / 128);
    }
}

/// A number that xz wrote is read as what it was.
pub proof fn law_xz_numbers_read_back(data: Seq<u8>, at: int, n: nat)
    requires
        0 <= at,
        n < 0x8000_0000_0000_0000,
        holds(data, at, vli_bytes(n)),
    ensures
        vli_at(data, at) == Some((n, at + vli_bytes(n).len())),
{
    lemma_power128();
    lemma_vli_bytes_len(n, 9);
    lemma_vli_bytes_read(data, at, 0, n);
}

/// An index's records as xz writes them: of each block its size in the file, and what it holds.
pub open spec fn record_bytes(records: Seq<(nat, nat)>) -> Seq<u8>
    decreases records.len(),
{
    if records.len() == 0 {
        Seq::empty()
    } else {
        vli_bytes(records[0].0) + vli_bytes(records[0].1) + record_bytes(records.skip(1))
    }
}

/// How much the blocks of records hold.
pub open spec fn content_of(records: Seq<(nat, nat)>) -> nat
    decreases records.len(),
{
    if records.len() == 0 {
        0
    } else {
        records[0].1 + content_of(records.skip(1))
    }
}

/// How long the blocks of records are in the file: each is filled up to a multiple of four.
pub open spec fn space_of(records: Seq<(nat, nat)>) -> nat
    decreases records.len(),
{
    if records.len() == 0 {
        0
    } else {
        let n = records[0].0;
        n + (if n % 4 == 0 {
            0
        } else {
            (4 - n % 4) as nat
        }) + space_of(records.skip(1))
    }
}

/// Can xz write these records?
pub open spec fn can_be_written(records: Seq<(nat, nat)>) -> bool {
    forall|k: int|
        0 <= k < records.len() ==> (#[trigger] records[k]).0 < 0x8000_0000_0000_0000 && records[k].1
            < 0x8000_0000_0000_0000
}

/// The records of an index add up to what their blocks hold and how long they are.
pub proof fn law_xz_records_add_up(data: Seq<u8>, at: int, records: Seq<(nat, nat)>, index: XzIndex, packed: u64)
    requires
        0 <= at,
        holds(data, at, record_bytes(records)),
        can_be_written(records),
        index.uncompressed + content_of(records) <= u64::MAX,
        packed + space_of(records) <= u64::MAX,
    ensures
        records_from(data, at, records.len(), index, packed) matches Some((i, p)) && {
            &&& i.uncompressed == index.uncompressed + content_of(records)
            &&& p == packed + space_of(records)
            &&& i.blocks == index.blocks
            &&& i.streams == index.streams
            &&& index.max_block <= i.max_block
            &&& index.max_block_packed <= i.max_block_packed
            &&& forall|k: int|
                0 <= k < records.len() ==> (#[trigger] records[k]).1 <= i.max_block && records[k].0
                    <= i.max_block_packed
        },
    decreases records.len(),
{
    if records.len() > 0 {
        let (unpadded, size) = records[0];
        let rest = records.skip(1);
        let (a, b, c) = (vli_bytes(unpadded), vli_bytes(size), record_bytes(rest));
        let all = data.subrange(at, at + record_bytes(records).len());
        assert(data.subrange(at, at + a.len()) =~= all.subrange(0, a.len() as int));
        assert(all.subrange(0, a.len() as int) =~= a);
        law_xz_numbers_read_back(data, at, unpadded);
        let second = at + a.len();
        assert(data.subrange(second, second + b.len()) =~= all.subrange(a.len() as int, (a.len() + b.len()) as int));
        assert(all.subrange(a.len() as int, (a.len() + b.len()) as int) =~= b);
        law_xz_numbers_read_back(data, second, size);
        let next = second + b.len();
        assert(data.subrange(next, next + c.len()) =~= all.skip((a.len() + b.len()) as int));
        assert(all.skip((a.len() + b.len()) as int) =~= c);
        assert forall|k: int| 0 <= k < rest.len() implies (#[trigger] rest[k]).0 < 0x8000_0000_0000_0000 && rest[k].1
            < 0x8000_0000_0000_0000 by {
            assert(rest[k] == records[k + 1]);
        }
        let with = XzIndex {
            uncompressed: (index.uncompressed + size) as u64,
            max_block: larger(index.max_block, size),
            max_block_packed: larger(index.max_block_packed, padded(unpadded)),
            ..index
        };
        law_xz_records_add_up(data, next, rest, with, (packed + padded(unpadded)) as u64);
        assert forall|k: int| 0 < k < records.len() implies rest[k - 1] == #[trigger] records[k] by {}
    }
}

/// A stream that ends at `end`, with the index that its records make, adds what its blocks hold;
/// the streams before it follow.
pub proof fn law_xz_streams_add_up(
    file: Seq<u8>,
    start: int,
    end: int,
    size: int,
    records: Seq<(nat, nat)>,
    index: XzIndex,
) -> (next: XzIndex)
    requires
        0 <= start,
        start + 12 + space_of(records) + size + 12 == end <= file.len() <= u64::MAX,
        holds(file, start, XZ_MAGIC@),
        holds(file, end - 12 - size, seq![0u8] + vli_bytes(records.len()) + record_bytes(records)),
        1 + vli_bytes(records.len()).len() + record_bytes(records).len() <= size <= 0x4000_0000,
        (le_value(file.subrange(end - 8, end - 4)) + 1) * 4 == size,
        file[end - 2] == 0x59,
        file[end - 1] == 0x5a,
        can_be_written(records),
        records.len() < 0x8000_0000_0000_0000,
        index.uncompressed + content_of(records) <= u64::MAX,
        index.blocks + records.len() <= u64::MAX,
        index.streams < u32::MAX,
    ensures
        index_to(file, end, index) == index_to(file, start, next),
        next.uncompressed == index.uncompressed + content_of(records),
        next.blocks == index.blocks + records.len(),
        next.streams == index.streams + 1,
{
    let footer = file.subrange(end - 12, end);
    law_fields_are_numbers(footer, 4);
    assert(footer.subrange(4, 8) =~= file.subrange(end - 8, end - 4));
    assert(footer[10] == 0x59 && footer[11] == 0x5a);
    assert(le32_at(footer, 8) != 0) by {
        law_fields_are_numbers(footer, 8);
        let b = footer.subrange(8, 12);
        reveal_with_fuel(le_value, 5);
        assert(b.skip(1).skip(1).skip(1)[0] == 0x5a);
    }
    let from = end - 12 - size;
    let data = file.subrange(from, from + size);
    let (a, b) = (vli_bytes(records.len()), record_bytes(records));
    let head = seq![0u8] + a + b;
    let there = file.subrange(from, from + head.len());
    assert(there == head);
    assert(data[0] == there[0] && there[0] == head[0]);
    assert(data.subrange(1, 1 + a.len() as int) =~= there.subrange(1, 1 + a.len() as int));
    assert(head.subrange(1, 1 + a.len() as int) =~= a);
    law_xz_numbers_read_back(data, 1, records.len());
    let at = 1 + a.len() as int;
    assert(data.subrange(at, at + b.len()) =~= there.subrange(at, at + b.len()));
    assert(head.subrange(at, at + b.len()) =~= b);
    law_xz_records_add_up(data, at, records, index, 0);
    let (i, packed) = records_from(data, at, records.len(), index, 0)->0;
    XzIndex { blocks: (i.blocks + records.len()) as u64, streams: (i.streams + 1) as u32, ..i }
}

/// Zeros after a stream, four at a time, add nothing.
pub proof fn law_xz_padding_adds_nothing(file: Seq<u8>, end: int, index: XzIndex)
    requires
        12 <= end <= file.len(),
        le_value(file.subrange(end - 4, end)) == 0,
    ensures
        index_to(file, end, index) == index_to(file, end - 4, index),
{
    let footer = file.subrange(end - 12, end);
    law_fields_are_numbers(footer, 8);
    assert(footer.subrange(8, 12) =~= file.subrange(end - 4, end));
}

} // verus!
