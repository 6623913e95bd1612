//! Smart images: a whole drive in one compressed file, where free space costs next to
//! nothing and a map of the used space comes first, so that a restore can write just the
//! used parts. Any zstd (or, for version 1, gzip) decoder still gives the full raw image:
//! the used data in place, zeros for free space, exactly the drive's size.
//!
//! # Version 2: zstd (`.img.zst`), what gets written
//!
//! A zstd file (RFC 8878) in zstd's seekable format: independent frames, then a seek
//! table. Integers are little-endian.
//!
//! 1. The map, in a skippable frame (which every zstd decoder skips): `u32 0x184D2A5D`,
//!    `u32 N`, then N bytes of ASCII:
//!
//!    ```text
//!    DD-GUI smart image v2
//!    size=<drive bytes> used=<bytes in extents> extents=<count> unit=<4096, or 1>
//!    map=<base64 without padding of LEB128 pairs: gap since the previous extent's end, length>
//!    ```
//!
//!    The pairs count units. An extent that ends at the end of the drive may end there
//!    inside its last unit. Keys a reader doesn't know are ignored; another first line
//!    (a later version) makes the file plain zstd.
//!
//! 2. The drive from start to end, in zstd frames that hold either only used data (up to
//!    4 MiB of it) or only free space: zeros, 64 MiB per frame, then powers of two down to
//!    4 KiB, then what's left at the very end of the drive. Each size of zeros is
//!    compressed once and repeated. Every frame records its size and a checksum of its
//!    content, and none holds more than 64 MiB.
//!
//! 3. The seek table, in a skippable frame: `u32 0x184D2A5E`, `u32 8 × F + 9`; for each of
//!    the F frames before it, the map's included, `u32` bytes in the file and `u32` bytes
//!    decompressed (0 for the map); then the footer: `u32 F`, `u8 0` (no checksums in the
//!    table), `u32 0x8F92EAB1`.
//!
//! # Version 1: gzip (`.img.gz`), still restored but no longer written
//!
//! A multi-member gzip file (RFC 1952), so plain `gunzip` gives the raw image:
//!
//! * Every member has an FEXTRA subfield `DG` of 8 bytes: the member's size in the file,
//!   then its uncompressed size, both u32. With the map, a restore skips members of free
//!   space without decompressing them.
//! * The first member is empty; its FCOMMENT holds the map as above, under the first line
//!   `DD-GUI smart image v1`.
//! * Then the drive from start to end, in members that are either all used data (up to
//!   4 MiB each) or all free space (zeros, 64 MiB or a smaller power of two per member).

use vstd::prelude::*;
use vstd::slice::*;
use vstd::string::*;
use vstd::utf8::*;
use crate::engine::formats::source::{bad, has, law_le32_round_trip, le16, le16_at, le32, le32_at, le32_bytes, push_le32};
use crate::engine::restore::content_from;
use crate::error::{bad_fault, Error, Fault, Kind};
use crate::smart::{any_holds, end_of, in_order, lemma_total_fits, lemma_total_take, none_empty, total, Extent};
use crate::text::{
    chars, decimal, from_utf8, is_text, lines, parse_u64, parse_usize, part, push_decimal, split_at_first,
    split_lines, split_once, split_words, starts, starts_with, u64_in, usize_in, views, words,
};

verus! {

/// The skippable frame that holds the map.
pub const MAP_FRAME: u32 = 0x184D_2A5D;

/// The skippable frame that holds a seek table (the seekable format's).
pub const SEEK_TABLE_FRAME: u32 = 0x184D_2A5E;

pub const SEEKABLE_MAGIC: u32 = 0x8F92_EAB1;

/// Bytes in the footer of a seek table.
pub const FOOTER_LEN: usize = 9;

/// The seekable format's limit on frames.
pub const MAX_FRAMES: u64 = 0x800_0000;

/// The compression level for used data: fast, and a good deal smaller than gzip -1.
pub const LEVEL: i32 = 3;

/// The most used data in one frame.
pub const DATA_MAX: usize = 0x40_0000;

/// The biggest frame of zeros (and member, in version 1). No frame holds more.
pub const ZEROS_MAX: u64 = 0x400_0000;

/// A map bigger than this is damage, not data: 64 MiB of map is millions of extents.
pub const MAP_MAX: u64 = 0x400_0000;

/// The first line of a version 2 map.
pub const MAGIC_V2: &'static str = "DD-GUI smart image v2";

/// The first line of a version 1 map (in the first gzip member's comment).
pub const MAGIC_V1: &'static str = "DD-GUI smart image v1";

// ---- Numbers of the map: LEB128 -----------------------------------------------------------

/// `v` in groups of seven bits, the low ones first; all but the last are marked.
pub open spec fn varint_bytes(v: nat) -> Seq<u8>
    decreases v,
{
    if v < 0x80 {
        seq![v as u8]
    } else {
        seq![(0x80 + v % 0x80) as u8] + varint_bytes(v / 0x80)
    }
}

/// The number at `at`, after `taken` of its at most ten bytes, and where it ends.
pub open spec fn varint_at(b: Seq<u8>, at: int, taken: nat) -> Option<(nat, int)>
    decreases 10 - taken,
{
    if taken >= 10 || at < 0 || at >= b.len() {
        None
    } else if b[at] < 0x80 {
        Some((b[at] as nat, at + 1))
    } else {
        match varint_at(b, at + 1, taken + 1) {
            Some((v, end)) => Some(((b[at] - 0x80 + 0x80 * v) as nat, end)),
            None => None,
        }
    }
}

/// The 64 low bits of the number at `at`, and where it ends.
pub open spec fn varint(b: Seq<u8>, at: int) -> Option<(u64, int)> {
    match varint_at(b, at, 0) {
        Some((v, end)) => Some(((v % 0x1_0000_0000_0000_0000) as u64, end)),
        None => None,
    }
}

pub fn put_varint(out: &mut Vec<u8>, v: u64)
    ensures
        final(out)@ == old(out)@ + varint_bytes(v as nat),
    decreases v,
{
    if v < 0x80 {
        out.push(v as u8);
        proof { assert(final(out)@ == old(out)@ + seq![v as u8]); }
    } else {
        out.push((0x80 + v % 0x80) as u8);
        put_varint(out, v / 0x80);
        proof {
            assert(final(out)@ == old(out)@ + (seq![(0x80 + v % 0x80) as u8] + varint_bytes((v / 0x80) as nat)));
        }
    }
}

fn varint_from(b: &[u8], at: usize, taken: u8) -> (r: Option<(u64, usize)>)
    ensures
        match (r, varint_at(b@, at as int, taken as nat)) {
            (Some((v, end)), Some((w, stop))) => {
                &&& v == w % 0x1_0000_0000_0000_0000
                &&& end == stop
                &&& at < end <= b@.len()
            },
            (None, None) => true,
            _ => false,
        },
    decreases 10 - taken,
{
    if taken >= 10 || at >= b.len() {
        return None;
    }
    let x: u8 = b[at];
    if x < 0x80 {
        return Some((x as u64, at + 1));
    }
    match varint_from(b, at + 1, taken + 1) {
        Some((v, end)) => {
            let low: u64 = (x - 0x80) as u64;
            let r: u64 = v.wrapping_mul(0x80).wrapping_add(low);
            proof {
                let w = (varint_at(b@, at + 1, (taken + 1) as nat)->0).0;
                let m = 0x1_0000_0000_0000_0000int;
                let q = w as int / m;
                assert(w == q * m + v);
                assert(low + 0x80 * w == (0x80 * q) * m + (low + 0x80 * v));
                vstd::arithmetic::div_mod::lemma_mod_multiples_vanish(0x80 * q, low + 0x80 * v, m);
                assert(m * (0x80 * q) == (0x80 * q) * m);
                assert((low + 0x80 * w) % m == (low + 0x80 * v) % m);
                vstd::arithmetic::div_mod::lemma_add_mod_noop(0x80 * v, low as int, m);
            }
            Some((r, end))
        },
        None => None,
    }
}

/// The number at `*at`, which moves past it.
pub fn get_varint(data: &[u8], at: &mut usize) -> (r: Option<u64>)
    ensures
        match r {
            Some(v) => {
                &&& varint(data@, *old(at) as int) == Some((v, *final(at) as int))
                &&& *old(at) < *final(at) <= data@.len()
            },
            None => varint(data@, *old(at) as int) is None,
        },
{
    match varint_from(data, *at, 0) {
        Some((v, end)) => {
            *at = end;
            Some(v)
        },
        None => None,
    }
}

spec fn pow128(n: nat) -> nat
    decreases n,
{
    if n == 0 {
        1
    } else {
        0x80 * pow128((n - 1) as nat)
    }
}

proof fn lemma_varint_at(pre: Seq<u8>, v: nat, post: Seq<u8>, taken: nat)
    requires
        taken < 10,
        v < pow128((10 - taken) as nat),
    ensures
        varint_at(pre + varint_bytes(v) + post, pre.len() as int, taken) == Some(
            (v, (pre.len() + varint_bytes(v).len()) as int),
        ),
    decreases v,
{
    let b = pre + varint_bytes(v) + post;
    if v < 0x80 {
        assert(b[pre.len() as int] == v);
    } else {
        let low = (0x80 + v % 0x80) as u8;
        assert(b[pre.len() as int] == low);
        if taken == 9 {
            assert(pow128(1) == 0x80 * pow128(0));
        }
        lemma_varint_at(pre.push(low), v / 0x80, post, taken + 1);
        assert(b == pre.push(low) + varint_bytes(v / 0x80) + post);
    }
}

/// A number written in a map reads back as the number, whatever stands around it.
pub proof fn law_varint_round_trip(pre: Seq<u8>, v: u64, post: Seq<u8>)
    ensures
        varint(pre + varint_bytes(v as nat) + post, pre.len() as int) == Some(
            (v, (pre.len() + varint_bytes(v as nat).len()) as int),
        ),
        varint_bytes(v as nat).len() > 0,
{
    assert(v < pow128(10)) by {
        reveal_with_fuel(pow128, 11);
    }
    lemma_varint_at(pre, v as nat, post, 0);
}

// ---- Bytes of the map: base64 without padding ---------------------------------------------

/// The character for six bits.
pub open spec fn base64_char(v: nat) -> char {
    if v < 26 {
        (65 + v) as char
    } else if v < 52 {
        (71 + v) as char
    } else if v < 62 {
        (v - 4) as char
    } else if v == 62 {
        '+'
    } else {
        '/'
    }
}

/// The six bits that a character stands for.
pub open spec fn base64_value(c: char) -> Option<nat> {
    if 'A' <= c <= 'Z' {
        Some((c as u32 - 65) as nat)
    } else if 'a' <= c <= 'z' {
        Some((c as u32 - 71) as nat)
    } else if '0' <= c <= '9' {
        Some((c as u32 + 4) as nat)
    } else if c == '+' {
        Some(62)
    } else if c == '/' {
        Some(63)
    } else {
        None
    }
}

/// Three bytes as four characters; one byte left over makes two, two make three.
pub open spec fn base64_text(d: Seq<u8>) -> Seq<char>
    decreases d.len(),
{
    if d.len() == 0 {
        Seq::empty()
    } else if d.len() == 1 {
        seq![base64_char((d[0] / 4) as nat), base64_char((d[0] % 4 * 16) as nat)]
    } else if d.len() == 2 {
        seq![
            base64_char((d[0] / 4) as nat),
            base64_char((d[0] % 4 * 16 + d[1] / 16) as nat),
            base64_char((d[1] % 16 * 4) as nat),
        ]
    } else {
        seq![
            base64_char((d[0] / 4) as nat),
            base64_char((d[0] % 4 * 16 + d[1] / 16) as nat),
            base64_char((d[1] % 16 * 4 + d[2] / 64) as nat),
            base64_char((d[2] % 64) as nat),
        ] + base64_text(d.skip(3))
    }
}

/// The value of the character at `i`.
pub open spec fn bits_at(s: Seq<char>, i: int) -> nat {
    base64_value(s[i])->0
}

/// Do the characters of `s` all stand for six bits?
pub open spec fn is_base64(s: Seq<char>) -> bool {
    forall|i: int| 0 <= i < s.len() ==> base64_value(#[trigger] s[i]) is Some
}

/// The whole bytes in the bits of `s`.
pub open spec fn base64_bytes(s: Seq<char>) -> Seq<u8>
    decreases s.len(),
{
    if s.len() <= 1 {
        Seq::empty()
    } else {
        let a = (bits_at(s, 0) * 4 + bits_at(s, 1) / 16) as u8;
        if s.len() == 2 {
            seq![a]
        } else {
            let b = (bits_at(s, 1) % 16 * 16 + bits_at(s, 2) / 4) as u8;
            if s.len() == 3 {
                seq![a, b]
            } else {
                let c = (bits_at(s, 2) % 4 * 64 + bits_at(s, 3)) as u8;
                seq![a, b, c] + base64_bytes(s.skip(4))
            }
        }
    }
}

/// The bytes that `s` holds, when it is base64.
pub open spec fn unbase64_of(s: Seq<char>) -> Option<Seq<u8>> {
    if is_base64(s) {
        Some(base64_bytes(s))
    } else {
        None
    }
}

fn to_base64(v: u8) -> (c: char)
    requires
        v < 64,
    ensures
        c == base64_char(v as nat),
{
    if v < 26 {
        (65 + v) as char
    } else if v < 52 {
        (71 + v) as char
    } else if v < 62 {
        (v - 4) as char
    } else if v == 62 {
        '+'
    } else {
        '/'
    }
}

fn from_base64(c: char) -> (r: Option<u8>)
    ensures
        match r {
            Some(v) => v < 64 && base64_value(c) == Some(v as nat),
            None => base64_value(c) is None,
        },
{
    if 'A' <= c && c <= 'Z' {
        Some((c as u32 - 65) as u8)
    } else if 'a' <= c && c <= 'z' {
        Some((c as u32 - 71) as u8)
    } else if '0' <= c && c <= '9' {
        Some((c as u32 + 4) as u8)
    } else if c == '+' {
        Some(62)
    } else if c == '/' {
        Some(63)
    } else {
        None
    }
}

/// Appends `data` in base64, without padding.
pub fn push_base64(out: &mut String, data: &[u8])
    ensures
        final(out)@ == old(out)@ + base64_text(data@),
{
    let mut i: usize = 0;
    proof {
        assert(data@.skip(0) == data@);
        assert(out@ == old(out)@ + Seq::<char>::empty());
    }
    while data.len() - i >= 3
        invariant
            i <= data.len(),
            old(out)@ + base64_text(data@) == out@ + base64_text(data@.skip(i as int)),
        decreases data.len() - i,
    {
        let (a, b, c): (u8, u8, u8) = (data[i], data[i + 1], data[i + 2]);
        let ghost before = out@;
        let ghost d = data@.skip(i as int);
        out.push(to_base64(a / 4));
        out.push(to_base64(a % 4 * 16 + b / 16));
        out.push(to_base64(b % 16 * 4 + c / 64));
        out.push(to_base64(c % 64));
        i = i + 3;
        proof {
            assert(d.skip(3) == data@.skip(i as int));
            assert(before + base64_text(d) == out@ + base64_text(d.skip(3)));
        }
    }
    let ghost d = data@.skip(i as int);
    let ghost before = out@;
    if data.len() - i == 2 {
        let (a, b): (u8, u8) = (data[i], data[i + 1]);
        out.push(to_base64(a / 4));
        out.push(to_base64(a % 4 * 16 + b / 16));
        out.push(to_base64(b % 16 * 4));
    } else if data.len() - i == 1 {
        let a: u8 = data[i];
        out.push(to_base64(a / 4));
        out.push(to_base64(a % 4 * 16));
    }
    proof { assert(out@ == before + base64_text(d)); }
}

/// The bytes that `text` holds; none when it is not base64.
pub fn unbase64(text: &[char]) -> (r: Option<Vec<u8>>)
    ensures
        match r {
            Some(v) => unbase64_of(text@) == Some(v@),
            None => unbase64_of(text@) is None,
        },
{
    let mut bits: Vec<u8> = Vec::new();
    let mut i: usize = 0;
    while i < text.len()
        invariant
            i <= text.len(),
            bits@.len() == i,
            forall|k: int|
                0 <= k < i ==> bits@[k] < 64 && base64_value(#[trigger] text@[k]) == Some(bits@[k] as nat),
        decreases text.len() - i,
    {
        match from_base64(text[i]) {
            Some(v) => bits.push(v),
            None => {
                assert(base64_value(text@[i as int]) is None);
                return None;
            },
        }
        i = i + 1;
    }
    assert(is_base64(text@));
    let mut out: Vec<u8> = Vec::new();
    let mut at: usize = 0;
    proof { assert(text@.skip(0) == text@); }
    while bits.len() - at >= 4
        invariant
            at <= bits.len() == text.len(),
            forall|k: int|
                0 <= k < bits@.len() ==> bits@[k] < 64 && base64_value(#[trigger] text@[k]) == Some(bits@[k] as nat),
            base64_bytes(text@) == out@ + base64_bytes(text@.skip(at as int)),
        decreases bits.len() - at,
    {
        let (a, b, c, d): (u8, u8, u8, u8) = (bits[at], bits[at + 1], bits[at + 2], bits[at + 3]);
        let ghost s = text@.skip(at as int);
        let ghost before = out@;
        proof {
            assert(s[0] == text@[at as int] && s[1] == text@[at + 1] && s[2] == text@[at + 2] && s[3] == text@[at + 3]);
        }
        out.push(a * 4 + b / 16);
        out.push(b % 16 * 16 + c / 4);
        out.push(c % 4 * 64 + d);
        at = at + 4;
        proof {
            assert(s.skip(4) == text@.skip(at as int));
            assert(before + base64_bytes(s) == out@ + base64_bytes(s.skip(4)));
        }
    }
    let ghost s = text@.skip(at as int);
    let ghost before = out@;
    if bits.len() - at >= 2 {
        let (a, b): (u8, u8) = (bits[at], bits[at + 1]);
        assert(s[0] == text@[at as int] && s[1] == text@[at + 1]);
        out.push(a * 4 + b / 16);
        if bits.len() - at == 3 {
            let c: u8 = bits[at + 2];
            assert(s[2] == text@[at + 2]);
            out.push(b % 16 * 16 + c / 4);
        }
    }
    proof { assert(out@ == before + base64_bytes(s)); }
    Some(out)
}

proof fn lemma_base64_char(v: nat)
    requires
        v < 64,
    ensures
        base64_value(base64_char(v)) == Some(v),
        !crate::text::is_space(base64_char(v)),
        base64_char(v) != '\n',
        base64_char(v) != '\r',
{
}

/// Bytes written in base64 read back as the bytes.
pub proof fn law_base64_round_trip(d: Seq<u8>)
    ensures
        is_base64(base64_text(d)),
        base64_bytes(base64_text(d)) == d,
        unbase64_of(base64_text(d)) == Some(d),
        forall|i: int|
            0 <= i < base64_text(d).len() ==> (#[trigger] base64_text(d)[i]) != '\n' && base64_text(d)[i] != '\r',
    decreases d.len(),
{
    let s = base64_text(d);
    if d.len() == 1 {
        lemma_base64_char((d[0] / 4) as nat);
        lemma_base64_char((d[0] % 4 * 16) as nat);
        assert(base64_bytes(s) == d);
    } else if d.len() == 2 {
        lemma_base64_char((d[0] / 4) as nat);
        lemma_base64_char((d[0] % 4 * 16 + d[1] / 16) as nat);
        lemma_base64_char((d[1] % 16 * 4) as nat);
        assert(base64_bytes(s) == d);
    } else if d.len() >= 3 {
        law_base64_round_trip(d.skip(3));
        let (a, b, c) = (d[0], d[1], d[2]);
        lemma_base64_char((a / 4) as nat);
        lemma_base64_char((a % 4 * 16 + b / 16) as nat);
        lemma_base64_char((b % 16 * 4 + c / 64) as nat);
        lemma_base64_char((c % 64) as nat);
        let t = base64_text(d.skip(3));
        assert(s.skip(4) == t);
        assert forall|i: int| 0 <= i < s.len() implies base64_value(#[trigger] s[i]) is Some && s[i] != '\n' && s[i] != '\r' by {
            if i >= 4 {
                assert(s[i] == t[i - 4]);
            }
        }
        assert(base64_bytes(s) == seq![a, b, c] + d.skip(3));
        assert(base64_bytes(s) == d);
    }
}

// ---- The map ------------------------------------------------------------------------------

/// Which parts of a drive a smart image holds.
#[derive(Clone, Debug, PartialEq, Eq)]
pub struct SpaceMap {
    pub size: u64,
    /// Sorted, not overlapping, within `size`.
    pub extents: Vec<Extent>,
}

/// What a `SpaceMap` says.
pub ghost struct Parts {
    pub size: u64,
    pub extents: Seq<Extent>,
}

impl View for SpaceMap {
    type V = Parts;

    open spec fn view(&self) -> Parts {
        Parts { size: self.size, extents: self.extents@ }
    }
}

impl Parts {
    /// Sorted, not overlapping, within the drive.
    pub open spec fn wf(self) -> bool {
        in_order(self.extents, self.size as int)
    }
}

/// Does `e` count in whole units of 4 KiB, or up to the end of the drive?
pub open spec fn aligned(e: Extent, size: u64) -> bool {
    e.start % 4096 == 0 && (e.len % 4096 == 0 || e.end() == size)
}

/// What the numbers of a map count: 4 KiB where every extent is aligned, else bytes.
pub open spec fn unit_of(m: Parts) -> nat {
    if forall|i: int| 0 <= i < m.extents.len() ==> aligned(#[trigger] m.extents[i], m.size) {
        4096
    } else {
        1
    }
}

/// How many units `len` bytes take.
pub open spec fn units(len: nat, unit: nat) -> nat {
    (len + unit - 1) as nat / unit
}

proof fn lemma_units_by_rest(len: nat, unit: nat)
    requires
        unit == 1 || unit == 4096,
    ensures
        units(len, unit) == len / unit + if len % unit == 0 {
            0nat
        } else {
            1nat
        },
{
    if unit == 1 {
        assert(len / 1 == len && len % 1 == 0);
    } else {
        assert(units(len, 4096) == len / 4096 + if len % 4096 == 0 {
            0nat
        } else {
            1nat
        });
    }
}

/// The pairs of a map: each extent's distance from the end of the one before, and its
/// length.
pub open spec fn pairs(extents: Seq<Extent>, unit: nat) -> Seq<u8>
    decreases extents.len(),
{
    if extents.len() == 0 {
        Seq::empty()
    } else {
        let e = extents.last();
        let pos = end_of(extents.drop_last());
        pairs(extents.drop_last(), unit) + varint_bytes((e.start - pos) as nat / unit) + varint_bytes(
            units(e.len as nat, unit),
        )
    }
}

/// The first line after the magic one.
pub open spec fn map_numbers(m: Parts) -> Seq<char> {
    "size="@ + decimal(m.size as nat) + " used="@ + decimal(total(m.extents)) + " extents="@ + decimal(
        m.extents.len(),
    ) + " unit="@ + decimal(unit_of(m))
}

/// What follows the first line.
pub open spec fn map_body(m: Parts) -> Seq<char> {
    map_numbers(m) + "\nmap="@ + base64_text(pairs(m.extents, unit_of(m))) + "\n"@
}

/// The map as text, under a first line of `magic`.
pub open spec fn map_text(m: Parts, magic: Seq<char>) -> Seq<char> {
    magic + "\n"@ + map_body(m)
}

/// The value of `key` in words of the form `key=value`: the last one counts.
pub open spec fn setting(ws: Seq<Seq<char>>, key: Seq<char>) -> Option<Seq<char>>
    decreases ws.len(),
{
    if ws.len() == 0 {
        None
    } else {
        match split_once(ws.last(), '=') {
            Some((k, v)) => if k == key {
                Some(v)
            } else {
                setting(ws.drop_last(), key)
            },
            None => setting(ws.drop_last(), key),
        }
    }
}

/// A number among such words.
pub open spec fn number_setting(ws: Seq<Seq<char>>, key: Seq<char>) -> Option<u64> {
    match setting(ws, key) {
        Some(v) => u64_in(v),
        None => None,
    }
}

/// A count among such words.
pub open spec fn count_setting(ws: Seq<Seq<char>>, key: Seq<char>) -> Option<usize> {
    match setting(ws, key) {
        Some(v) => usize_in(v),
        None => None,
    }
}

/// Is every word of the form `key=value`?
pub open spec fn all_settings(ws: Seq<Seq<char>>) -> bool {
    forall|i: int| 0 <= i < ws.len() ==> split_once(#[trigger] ws[i], '=') is Some
}

/// `pos` and `n` units on, as long as that can be counted.
pub open spec fn forward(pos: u64, n: u64, unit: u64) -> Option<u64> {
    if n * unit > u64::MAX || pos + n * unit > u64::MAX {
        None
    } else {
        Some((pos + n * unit) as u64)
    }
}

/// An end in whole units: only the end of the drive cuts a unit short.
pub open spec fn cut(end: u64, size: u64, unit: u64) -> u64 {
    if end > size && end - size < unit {
        size
    } else {
        end
    }
}

/// The extent that the pair at `at` describes, after data that ended at `pos`, and where
/// the pair ends.
pub open spec fn pair_at(b: Seq<u8>, at: int, pos: u64, size: u64, unit: u64) -> Option<(Extent, int)> {
    match varint(b, at) {
        None => None,
        Some((gap, mid)) => match (forward(pos, gap, unit), varint(b, mid)) {
            (Some(start), Some((len, next))) => match forward(start, len, unit) {
                None => None,
                Some(whole) => {
                    let end = cut(whole, size, unit);
                    if end <= start || end > size {
                        None
                    } else {
                        Some((Extent { start, len: (end - start) as u64 }, next))
                    }
                },
            },
            _ => None,
        },
    }
}

/// The extents that the pairs from `at` on describe, after data that ended at `pos`.
pub open spec fn extents_in(b: Seq<u8>, at: int, pos: u64, size: u64, unit: u64) -> Option<Seq<Extent>>
    decreases b.len() - at,
    via extents_in_ends
{
    if at >= b.len() {
        Some(Seq::empty())
    } else {
        match pair_at(b, at, pos, size, unit) {
            None => None,
            Some((e, next)) => match extents_in(b, next, (e.start + e.len) as u64, size, unit) {
                None => None,
                Some(rest) => Some(seq![e] + rest),
            },
        }
    }
}

proof fn lemma_varint_moves(b: Seq<u8>, at: int, taken: nat)
    ensures
        varint_at(b, at, taken) matches Some((v, end)) ==> at < end <= b.len(),
    decreases 10 - taken,
{
    if taken < 10 && 0 <= at < b.len() && b[at] >= 0x80 {
        lemma_varint_moves(b, at + 1, taken + 1);
    }
}

#[via_fn]
proof fn extents_in_ends(b: Seq<u8>, at: int, pos: u64, size: u64, unit: u64) {
    lemma_varint_moves(b, at, 0);
    if let Some((gap, mid)) = varint(b, at) {
        lemma_varint_moves(b, mid, 0);
    }
}

/// The map in the lines after the first one; none when they are damaged.
pub open spec fn map_in(body: Seq<char>) -> Option<Parts> {
    let ls = lines(body);
    let ws = words(ls[0]);
    if ls.len() >= 2 && all_settings(ws) && starts(ls[1], "map="@) {
        match (
            number_setting(ws, "size"@),
            number_setting(ws, "used"@),
            count_setting(ws, "extents"@),
            number_setting(ws, "unit"@),
            unbase64_of(ls[1].skip(4)),
        ) {
            (Some(size), Some(used), Some(count), Some(unit), Some(b)) => match extents_in(b, 0, 0, size, unit) {
                Some(extents) => if unit > 0 && extents.len() == count && total(extents) == used {
                    Some(Parts { size, extents })
                } else {
                    None
                },
                None => None,
            },
            _ => None,
        }
    } else {
        None
    }
}

/// What follows `magic` and a line feed in `text`, if it starts so.
pub open spec fn after_magic(text: Seq<u8>, magic: Seq<char>) -> Option<Seq<u8>> {
    let m = encode_utf8(magic);
    if m.len() < text.len() && text.take(m.len() as int) == m && text[m.len() as int] == 10 {
        Some(text.skip(m.len() as int + 1))
    } else {
        None
    }
}

/// The map in `text`: none where the first line is not `magic`, a map or damage where it
/// is.
pub open spec fn parsed(text: Seq<u8>, magic: Seq<char>) -> Option<Option<Parts>> {
    match after_magic(text, magic) {
        None => None,
        Some(body) => Some(
            if valid_utf8(body) {
                map_in(decode_utf8(body))
            } else {
                None
            },
        ),
    }
}

/// Why a map cannot be read.
pub open spec fn damaged_map() -> Seq<char> {
    "the map of used space in this smart image is damaged"@
}

proof fn lemma_extents_in_order(b: Seq<u8>, at: int, pos: u64, size: u64, unit: u64)
    ensures
        extents_in(b, at, pos, size, unit) matches Some(es) ==> in_order(es, size as int) && none_empty(es) && (
        es.len() > 0 ==> pos <= es[0].start),
    decreases b.len() - at,
{
    if at < b.len() {
        lemma_varint_moves(b, at, 0);
        if let Some((gap, mid)) = varint(b, at) {
            lemma_varint_moves(b, mid, 0);
        }
        if let Some((e, next)) = pair_at(b, at, pos, size, unit) {
            let stop = (e.start + e.len) as u64;
            lemma_extents_in_order(b, next, stop, size, unit);
            if let Some(rest) = extents_in(b, next, stop, size, unit) {
                let es = seq![e] + rest;
                assert forall|i: int| 0 <= i < es.len() implies (#[trigger] es[i]).end() <= size by {
                    if i > 0 {
                        assert(es[i] == rest[i - 1]);
                    }
                }
                assert forall|i: int, j: int| 0 <= i < j < es.len() implies (#[trigger] es[i]).end() <= (
                #[trigger] es[j]).start by {
                    assert(es[j] == rest[j - 1]);
                    if i > 0 {
                        assert(es[i] == rest[i - 1]);
                    } else if j > 1 {
                        assert(rest[0].end() <= rest[j - 1].start);
                    }
                }
                assert forall|i: int| 0 <= i < es.len() implies (#[trigger] es[i]).len > 0 by {
                    if i > 0 {
                        assert(es[i] == rest[i - 1]);
                    }
                }
            }
        }
    }
}

/// A map that was read is sorted, does not overlap, lies within the drive, and holds no empty
/// part.
pub proof fn law_parsed_maps_are_in_order(text: Seq<u8>, magic: Seq<char>)
    ensures
        parsed(text, magic) matches Some(Some(m)) ==> m.wf() && none_empty(m.extents),
{
    if let Some(body) = after_magic(text, magic) {
        if valid_utf8(body) {
            let ls = lines(decode_utf8(body));
            let ws = words(ls[0]);
            if let Some(b) = unbase64_of(ls[1].skip(4)) {
                if let (Some(size), Some(unit)) = (number_setting(ws, "size"@), number_setting(ws, "unit"@)) {
                    lemma_extents_in_order(b, 0, 0, size, unit);
                }
            }
        }
    }
}

impl SpaceMap {
    pub fn used(&self) -> (n: u64)
        requires
            total(self.extents@) <= u64::MAX,
        ensures
            n == total(self.extents@),
    {
        let mut n: u64 = 0;
        let mut i: usize = 0;
        while i < self.extents.len()
            invariant
                i <= self.extents@.len(),
                n == total(self.extents@.take(i as int)),
                total(self.extents@) <= u64::MAX,
            decreases self.extents@.len() - i,
        {
            proof {
                lemma_total_take(self.extents@, i + 1);
                assert(self.extents@.take(i + 1).drop_last() == self.extents@.take(i as int));
            }
            n = n + self.extents[i].len;
            i = i + 1;
        }
        proof { assert(self.extents@.take(self.extents@.len() as int) == self.extents@); }
        n
    }

    /// Where the data ends: a drive has to be at least this big to take it.
    pub fn end(&self) -> (n: u64)
        requires
            end_of(self.extents@) <= u64::MAX,
        ensures
            n == end_of(self.extents@),
    {
        if self.extents.len() == 0 {
            0
        } else {
            let e: Extent = self.extents[self.extents.len() - 1];
            e.start + e.len
        }
    }

    fn unit(&self) -> (unit: u64)
        requires
            self@.wf(),
        ensures
            unit == unit_of(self@),
    {
        let mut i: usize = 0;
        while i < self.extents.len()
            invariant
                self@.wf(),
                i <= self.extents@.len(),
                forall|k: int| 0 <= k < i ==> aligned(#[trigger] self.extents@[k], self.size),
            decreases self.extents@.len() - i,
        {
            let e: Extent = self.extents[i];
            proof { assert(self@.extents[i as int].end() <= self.size); }
            if e.start % 4096 != 0 || (e.len % 4096 != 0 && e.start + e.len != self.size) {
                proof { assert(!aligned(self@.extents[i as int], self@.size)); }
                return 1;
            }
            i = i + 1;
        }
        4096
    }

    fn pair_bytes(&self, unit: u64) -> (bytes: Vec<u8>)
        requires
            self@.wf(),
            unit == 1 || unit == 4096,
        ensures
            bytes@ == pairs(self.extents@, unit as nat),
    {
        let mut bytes: Vec<u8> = Vec::new();
        let mut pos: u64 = 0;
        let mut i: usize = 0;
        while i < self.extents.len()
            invariant
                self@.wf(),
                unit == 1 || unit == 4096,
                i <= self.extents@.len(),
                pos == end_of(self.extents@.take(i as int)),
                bytes@ == pairs(self.extents@.take(i as int), unit as nat),
            decreases self.extents@.len() - i,
        {
            let e: Extent = self.extents[i];
            proof {
                assert(self@.extents[i as int].end() <= self.size);
                if i > 0 {
                    assert(self@.extents[i - 1].end() <= self@.extents[i as int].start);
                }
                assert(self.extents@.take(i + 1).drop_last() == self.extents@.take(i as int));
            }
            put_varint(&mut bytes, (e.start - pos) / unit);
            let whole: u64 = e.len / unit + if e.len % unit == 0 {
                0
            } else {
                1
            };
            proof { lemma_units_by_rest(e.len as nat, unit as nat); }
            put_varint(&mut bytes, whole);
            pos = e.start + e.len;
            i = i + 1;
        }
        proof { assert(self.extents@.take(self.extents@.len() as int) == self.extents@); }
        bytes
    }

    /// The map as text, under a first line of `magic`.
    pub fn to_text(&self, magic: &str) -> (s: String)
        requires
            self@.wf(),
        ensures
            s@ == map_text(self@, magic@),
    {
        proof { lemma_total_fits(self.extents@, self.size as int); }
        // Counting in 4 KiB units makes for small numbers. The analysis aligns extents to
        // that, except where the last one stops at the end of the drive.
        let unit: u64 = self.unit();
        let bytes: Vec<u8> = self.pair_bytes(unit);
        let mut s: String = magic.to_owned();
        s.append("\n");
        let ghost head = s@;
        s.append("size=");
        push_decimal(&mut s, self.size);
        s.append(" used=");
        push_decimal(&mut s, self.used());
        s.append(" extents=");
        push_decimal(&mut s, self.extents.len() as u64);
        s.append(" unit=");
        push_decimal(&mut s, unit);
        proof { assert(s@ == head + map_numbers(self@)); }
        s.append("\nmap=");
        push_base64(&mut s, &bytes);
        s.append("\n");
        proof { assert(s@ == head + map_body(self@)); }
        s
    }

    /// The map in `text`, whose first line has to be `magic`. None when it isn't.
    pub fn parse(text: &[u8], magic: &str) -> (r: Option<Result<SpaceMap, String>>)
        ensures
            match (r, parsed(text@, magic@)) {
                (None, None) => true,
                (Some(Ok(m)), Some(Some(p))) => m@ == p,
                (Some(Err(e)), Some(None)) => e@ == damaged_map(),
                _ => false,
            },
    {
        let m: &[u8] = magic.as_bytes();
        if m.len() >= text.len() || text[m.len()] != 10 {
            return None;
        }
        let mut i: usize = 0;
        while i < m.len()
            invariant
                i <= m.len() < text.len(),
                m@ == encode_utf8(magic@),
                forall|k: int| 0 <= k < i ==> text@[k] == #[trigger] m@[k],
            decreases m.len() - i,
        {
            if text[i] != m[i] {
                proof { assert(text@.take(m@.len() as int)[i as int] != m@[i as int]); }
                return None;
            }
            i = i + 1;
        }
        proof { assert(text@.take(m@.len() as int) == m@); }
        let body: &[u8] = slice_subrange(text, m.len() + 1, text.len());
        proof { assert(body@ == text@.skip(m@.len() as int + 1)); }
        Some(
            match parse_body(body) {
                Some(map) => Ok(map),
                None => Err("the map of used space in this smart image is damaged".to_owned()),
            },
        )
    }
}

fn parse_body(body: &[u8]) -> (r: Option<SpaceMap>)
    ensures
        match r {
            Some(m) => valid_utf8(body@) && map_in(decode_utf8(body@)) == Some(m@),
            None => valid_utf8(body@) ==> map_in(decode_utf8(body@)) is None,
        },
{
    let text: &str = match from_utf8(body) {
        Some(text) => text,
        None => return None,
    };
    let v: Vec<char> = chars(text);
    let ls: Vec<Vec<char>> = split_lines(&v);
    if ls.len() < 2 {
        return None;
    }
    proof {
        assert(views(ls@)[0] == ls@[0]@);
        assert(views(ls@)[1] == ls@[1]@);
    }
    let ws: Vec<Vec<char>> = split_words(&ls[0]);
    let (mut size, mut used, mut unit): (Option<u64>, Option<u64>, Option<u64>) = (None, None, None);
    let mut count: Option<usize> = None;
    let mut i: usize = 0;
    while i < ws.len()
        invariant
            i <= ws@.len(),
            views(ls@) == lines(decode_utf8(body@)),
            ls@.len() >= 2,
            ls@[0]@ == views(ls@)[0],
            views(ws@) == words(ls@[0]@),
            forall|k: int| 0 <= k < i ==> split_once(#[trigger] views(ws@)[k], '=') is Some,
            size == number_setting(views(ws@).take(i as int), "size"@),
            used == number_setting(views(ws@).take(i as int), "used"@),
            unit == number_setting(views(ws@).take(i as int), "unit"@),
            count == count_setting(views(ws@).take(i as int), "extents"@),
        decreases ws@.len() - i,
    {
        proof {
            assert(views(ws@)[i as int] == ws@[i as int]@);
            assert(views(ws@).take(i + 1).drop_last() == views(ws@).take(i as int));
            assert(views(ws@).take(i + 1).last() == ws@[i as int]@);
        }
        match split_at_first(&ws[i], '=') {
            None => {
                assert(!all_settings(words(lines(decode_utf8(body@))[0])));
                return None;
            },
            Some((k, v)) => {
                if is_text(&k, "size") {
                    size = parse_u64(&v);
                }
                if is_text(&k, "used") {
                    used = parse_u64(&v);
                }
                if is_text(&k, "extents") {
                    count = parse_usize(&v);
                }
                if is_text(&k, "unit") {
                    unit = parse_u64(&v);
                }
            },
        }
        i = i + 1;
    }
    proof {
        assert(views(ws@).take(ws@.len() as int) == views(ws@));
        assert(all_settings(views(ws@)));
    }
    if !starts_with(&ls[1], "map=") {
        return None;
    }
    proof {
        reveal_strlit("map=");
        assert("map="@.len() == 4);
    }
    let packed: Vec<char> = part(&ls[1], 4, ls[1].len());
    proof { assert(packed@ == ls@[1]@.skip(4)); }
    match (size, used, count, unit, unbase64(&packed)) {
        (Some(size), Some(used), Some(count), Some(unit), Some(bytes)) => {
            if unit == 0 {
                return None;
            }
            match parse_extents(&bytes, size, unit) {
                Some(extents) => {
                    proof { lemma_total_fits(extents@, size as int); }
                    let map: SpaceMap = SpaceMap { size, extents };
                    if map.extents.len() == count && map.used() == used {
                        Some(map)
                    } else {
                        None
                    }
                },
                None => None,
            }
        },
        _ => None,
    }
}

fn parse_extents(bytes: &[u8], size: u64, unit: u64) -> (r: Option<Vec<Extent>>)
    ensures
        match r {
            Some(v) => {
                &&& extents_in(bytes@, 0, 0, size, unit) == Some(v@)
                &&& in_order(v@, size as int)
                &&& none_empty(v@)
            },
            None => extents_in(bytes@, 0, 0, size, unit) is None,
        },
{
    let mut extents: Vec<Extent> = Vec::new();
    let mut at: usize = 0;
    let mut pos: u64 = 0;
    let ghost all = extents_in(bytes@, 0, 0, size, unit);
    proof {
        if let Some(rest) = all {
            assert(extents@ + rest == rest);
        }
    }
    while at < bytes.len()
        invariant
            at <= bytes.len(),
            in_order(extents@, size as int),
            none_empty(extents@),
            pos == end_of(extents@),
            pos <= size,
            all == extents_in(bytes@, 0, 0, size, unit),
            match extents_in(bytes@, at as int, pos, size, unit) {
                Some(rest) => all == Some(extents@ + rest),
                None => all is None,
            },
        decreases bytes.len() - at,
    {
        let start: u64 = match get_varint(bytes, &mut at) {
            Some(gap) => match gap.checked_mul(unit) {
                Some(d) => match pos.checked_add(d) {
                    Some(start) => start,
                    None => return None,
                },
                None => return None,
            },
            None => return None,
        };
        let whole: u64 = match get_varint(bytes, &mut at) {
            Some(len) => match len.checked_mul(unit) {
                Some(d) => match start.checked_add(d) {
                    Some(whole) => whole,
                    None => return None,
                },
                None => return None,
            },
            None => return None,
        };
        // Only the end of the drive cuts a unit short.
        let end: u64 = if whole > size && whole - size < unit {
            size
        } else {
            whole
        };
        if end <= start || end > size {
            return None;
        }
        let ghost before = extents@;
        let e: Extent = Extent { start, len: end - start };
        extents.push(e);
        proof {
            if let Some(rest) = extents_in(bytes@, at as int, end, size, unit) {
                assert(before + (seq![e] + rest) == extents@ + rest);
            }
            assert forall|i: int, j: int| 0 <= i < j < extents@.len() implies (#[trigger] extents@[i]).end() <= (
            #[trigger] extents@[j]).start by {
                if j == before.len() {
                    assert(before[i].end() <= end_of(before)) by {
                        if i < before.len() - 1 {
                            assert(before[i].end() <= before[before.len() - 1].start);
                        }
                    }
                } else {
                    assert(before[i].end() <= before[j].start);
                }
            }
        }
        pos = end;
    }
    proof {
        assert(extents@ + Seq::<Extent>::empty() == extents@);
    }
    Some(extents)
}

/// Can the ends of the extents be counted in whole units?
pub open spec fn countable(m: Parts) -> bool {
    forall|i: int|
        0 <= i < m.extents.len() ==> (#[trigger] m.extents[i]).start + units(m.extents[i].len as nat, unit_of(m))
            * unit_of(m) <= u64::MAX
}

proof fn lemma_pairs_prefix(extents: Seq<Extent>, k: int, unit: nat)
    requires
        0 <= k <= extents.len(),
    ensures
        pairs(extents.take(k), unit).len() <= pairs(extents, unit).len(),
        pairs(extents, unit).take(pairs(extents.take(k), unit).len() as int) == pairs(extents.take(k), unit),
    decreases extents.len(),
{
    if k == extents.len() {
        assert(extents.take(k) == extents);
        assert(pairs(extents, unit).take(pairs(extents, unit).len() as int) == pairs(extents, unit));
    } else {
        let rest = extents.drop_last();
        lemma_pairs_prefix(rest, k, unit);
        assert(rest.take(k) == extents.take(k));
        let n = pairs(extents.take(k), unit).len() as int;
        assert(pairs(extents, unit).take(n) == pairs(rest, unit).take(n));
    }
}

/// Gaps and lengths in units, back in bytes.
proof fn lemma_in_units(pos: int, start: int, len: nat, unit: nat)
    requires
        unit == 1 || unit == 4096,
        0 <= pos <= start,
        unit == 4096 ==> pos % 4096 == 0 && start % 4096 == 0,
    ensures
        (start - pos) as nat / unit * unit == start - pos,
        len <= units(len, unit) * unit < len + unit,
        len % 4096 == 0 ==> units(len, unit) * unit == len,
{
    let gap = (start - pos) as nat;
    if unit == 1 {
        assert(gap / 1 * 1 == gap);
        assert(units(len, 1) == len);
        assert(units(len, 1) * 1 == len);
    } else {
        assert(gap % 4096 == 0);
        assert(gap / 4096 * 4096 == gap);
        let n = (len + 4095) as nat / 4096;
        assert(units(len, 4096) == n);
        assert(len <= n * 4096 < len + 4096);
        assert(len % 4096 == 0 ==> n * 4096 == len);
    }
}

/// The units of one extent of a map give back its start and its end.
#[verifier::spinoff_prover]
proof fn lemma_units(m: Parts, k: int)
    requires
        m.wf(),
        none_empty(m.extents),
        countable(m),
        0 <= k < m.extents.len(),
    ensures
        ({
            let e = m.extents[k];
            let unit = unit_of(m);
            let pos = end_of(m.extents.take(k));
            let gap = (e.start - pos) as nat / unit;
            let len = units(e.len as nat, unit);
            &&& 0 <= pos <= e.start
            &&& gap <= u64::MAX
            &&& len <= u64::MAX
            &&& forward(pos as u64, gap as u64, unit as u64) == Some(e.start)
            &&& forward(e.start, len as u64, unit as u64) matches Some(whole) && cut(whole, m.size, unit as u64)
                == e.end()
        }),
{
    let e = m.extents[k];
    let unit = unit_of(m);
    let pos = end_of(m.extents.take(k));
    assert(e.end() <= m.size);
    if k > 0 {
        let d = m.extents[k - 1];
        assert(m.extents.take(k).last() == d);
        assert(d.end() <= e.start);
        if unit == 4096 {
            assert(aligned(d, m.size));
        }
    }
    if unit == 4096 {
        assert(aligned(e, m.size));
        assert(pos % 4096 == 0);
    }
    assert(e.start + units(e.len as nat, unit) * unit <= u64::MAX);
    assert(0 <= pos <= e.start);
    lemma_in_units(pos, e.start as int, e.len as nat, unit);
    let gap = (e.start - pos) as nat / unit;
    let len = units(e.len as nat, unit);
    assert(gap <= gap * unit && len <= len * unit) by (nonlinear_arith)
        requires
            unit >= 1,
            gap >= 0,
            len >= 0,
    ;
    assert(gap as u64 * unit as u64 == gap * unit);
    assert(len as u64 * unit as u64 == len * unit);
    assert(forward(pos as u64, gap as u64, unit as u64) == Some(e.start));
    assert(forward(e.start, len as u64, unit as u64) == Some((e.start + len * unit) as u64));
}

/// The pair of one extent of a map describes it.
proof fn lemma_pair_at(m: Parts, k: int)
    requires
        m.wf(),
        none_empty(m.extents),
        countable(m),
        0 <= k < m.extents.len(),
    ensures
        pair_at(
            pairs(m.extents, unit_of(m)),
            pairs(m.extents.take(k), unit_of(m)).len() as int,
            end_of(m.extents.take(k)) as u64,
            m.size,
            unit_of(m) as u64,
        ) == Some((m.extents[k], pairs(m.extents.take(k + 1), unit_of(m)).len() as int)),
{
    let unit = unit_of(m);
    let b = pairs(m.extents, unit);
    let pre = pairs(m.extents.take(k), unit);
    let e = m.extents[k];
    let pos = end_of(m.extents.take(k));
    lemma_pairs_prefix(m.extents, k + 1, unit);
    let next = m.extents.take(k + 1);
    assert(next.drop_last() == m.extents.take(k));
    assert(next.last() == e);
    let gap = (e.start - pos) as nat / unit;
    let len = units(e.len as nat, unit);
    let (v1, v2) = (varint_bytes(gap), varint_bytes(len));
    let all = pairs(next, unit);
    assert(all == pre + v1 + v2);
    let tail = b.skip(all.len() as int);
    assert(b == all + tail);
    assert(b == pre + v1 + (v2 + tail));
    assert(b == (pre + v1) + v2 + tail);
    lemma_units(m, k);
    let (gap64, len64) = (gap as u64, len as u64);
    law_varint_round_trip(pre, gap64, v2 + tail);
    law_varint_round_trip(pre + v1, len64, tail);
    assert(e.end() <= m.size);
    assert(e.len > 0);
    assert(varint(b, pre.len() as int) == Some((gap64, (pre + v1).len() as int)));
    assert(varint(b, (pre + v1).len() as int) == Some((len64, all.len() as int)));
}

#[verifier::spinoff_prover]
#[verifier::rlimit(60)]
proof fn lemma_extents_in(m: Parts, k: int)
    requires
        m.wf(),
        none_empty(m.extents),
        countable(m),
        0 <= k <= m.extents.len(),
    ensures
        extents_in(
            pairs(m.extents, unit_of(m)),
            pairs(m.extents.take(k), unit_of(m)).len() as int,
            end_of(m.extents.take(k)) as u64,
            m.size,
            unit_of(m) as u64,
        ) == Some(m.extents.skip(k)),
    decreases m.extents.len() - k,
{
    let unit = unit_of(m);
    if k == m.extents.len() {
        assert(m.extents.take(k) == m.extents);
        assert(m.extents.skip(k) == Seq::<Extent>::empty());
    } else {
        let e = m.extents[k];
        lemma_pair_at(m, k);
        lemma_extents_in(m, k + 1);
        assert(m.extents.take(k + 1).last() == e);
        assert(m.extents.skip(k) == seq![e] + m.extents.skip(k + 1));
        assert(pairs(m.extents.take(k), unit).len() < pairs(m.extents, unit).len()) by {
            lemma_pairs_prefix(m.extents, k + 1, unit);
            assert(m.extents.take(k + 1).drop_last() == m.extents.take(k));
            law_varint_round_trip(Seq::empty(), e.len, Seq::empty());
            assert(varint_bytes(units(e.len as nat, unit)).len() > 0);
        }
    }
}

/// A word `key=value` whose key holds no equals sign.
proof fn lemma_setting_word(word: Seq<char>, key: Seq<char>, value: Seq<char>)
    requires
        word == key.push('=') + value,
        forall|i: int| 0 <= i < key.len() ==> #[trigger] key[i] != '=',
    ensures
        split_once(word, '=') == Some((key, value)),
{
    assert forall|i: int| 0 <= i < key.len() implies #[trigger] word[i] != '=' by {
        assert(word[i] == key[i]);
    }
    crate::text::lemma_find_is(word, '=', key.len());
    assert(word.take(key.len() as int) == key);
    assert(word.skip(key.len() as int + 1) == value);
}

/// A word of the map's numbers: no spaces, no ends of lines, and its parts.
proof fn lemma_number_word(lit: Seq<char>, key: Seq<char>, n: nat)
    requires
        lit == key.push('='),
        forall|i: int| 0 <= i < key.len() ==> 'a' <= #[trigger] key[i] <= 'z',
    ensures
        ({
            let word = lit + decimal(n);
            &&& word.len() > 0
            &&& forall|i: int|
                0 <= i < word.len() ==> !crate::text::is_space(#[trigger] word[i]) && word[i] != '\n' && word[i] != '\r'
            &&& split_once(word, '=') == Some((key, decimal(n)))
        }),
{
    crate::text::law_decimal_round_trip(n);
    let word = lit + decimal(n);
    lemma_setting_word(word, key, decimal(n));
    assert forall|i: int| 0 <= i < word.len() implies !crate::text::is_space(#[trigger] word[i]) && word[i] != '\n'
        && word[i] != '\r' by {
        if i < key.len() {
            assert(word[i] == key[i]);
        } else if i > key.len() {
            assert(word[i] == decimal(n)[i - lit.len()]);
            assert(crate::text::is_digit(decimal(n)[i - lit.len()]));
        }
    }
}

#[verifier::spinoff_prover]
#[verifier::rlimit(40)]
proof fn lemma_map_words(m: Parts)
    requires
        m.wf(),
    ensures
        ({
            let s = map_numbers(m);
            let ws = words(s);
            &&& all_settings(ws)
            &&& setting(ws, "size"@) == Some(decimal(m.size as nat))
            &&& setting(ws, "used"@) == Some(decimal(total(m.extents)))
            &&& setting(ws, "extents"@) == Some(decimal(m.extents.len()))
            &&& setting(ws, "unit"@) == Some(decimal(unit_of(m)))
            &&& forall|i: int| 0 <= i < s.len() ==> #[trigger] s[i] != '\n' && s[i] != '\r'
        }),
{
    reveal_strlit("size");
    reveal_strlit("size=");
    reveal_strlit("used");
    reveal_strlit(" used=");
    reveal_strlit("extents");
    reveal_strlit(" extents=");
    reveal_strlit("unit");
    reveal_strlit(" unit=");
    let (k1, k2, k3, k4) = ("size"@, "used"@, "extents"@, "unit"@);
    let (l1, l2, l3, l4) = (k1.push('='), k2.push('='), k3.push('='), k4.push('='));
    let (n1, n2, n3, n4) = (m.size as nat, total(m.extents), m.extents.len(), unit_of(m));
    lemma_number_word(l1, k1, n1);
    lemma_number_word(l2, k2, n2);
    lemma_number_word(l3, k3, n3);
    lemma_number_word(l4, k4, n4);
    let (w1, w2, w3, w4) = (l1 + decimal(n1), l2 + decimal(n2), l3 + decimal(n3), l4 + decimal(n4));
    assert("size="@ == l1);
    assert(" used="@ == seq![' '] + l2);
    assert(" extents="@ == seq![' '] + l3);
    assert(" unit="@ == seq![' '] + l4);
    let s34 = w3.push(' ') + w4;
    let s234 = w2.push(' ') + s34;
    let s = w1.push(' ') + s234;
    assert(s == map_numbers(m));
    crate::text::lemma_words_one(w4);
    crate::text::lemma_words_push(w3, ' ', w4);
    crate::text::lemma_words_push(w2, ' ', s34);
    crate::text::lemma_words_push(w1, ' ', s234);
    let ws = seq![w1, w2, w3, w4];
    assert(words(s) == ws);
    assert(ws.drop_last() == seq![w1, w2, w3]);
    assert(seq![w1, w2, w3].drop_last() == seq![w1, w2]);
    assert(seq![w1, w2].drop_last() == seq![w1]);
    assert(k1[0] != k2[0] && k2[2] != k4[2] && k1[0] != k4[0]);
    assert(setting(seq![w1], k1) == Some(decimal(n1)));
    assert(setting(seq![w1, w2], k2) == Some(decimal(n2)));
    assert(setting(seq![w1, w2], k1) == Some(decimal(n1)));
    assert(k3.len() == 7);
    assert(setting(seq![w1, w2, w3], k3) == Some(decimal(n3)));
    assert(setting(seq![w1, w2, w3], k2) == Some(decimal(n2)));
    assert(setting(seq![w1, w2, w3], k1) == Some(decimal(n1)));
    assert(setting(ws, k4) == Some(decimal(n4)));
    assert forall|i: int| 0 <= i < s.len() implies #[trigger] s[i] != '\n' && s[i] != '\r' by {
        let a = w1.len() as int;
        let b = a + 1 + w2.len();
        let c = b + 1 + w3.len();
        if i < a {
            assert(s[i] == w1[i]);
        } else if a < i < b {
            assert(s[i] == w2[i - a - 1]);
        } else if b < i < c {
            assert(s[i] == w3[i - b - 1]);
        } else if c < i {
            assert(s[i] == w4[i - c - 1]);
        }
    }
}

/// A map that was written reads back as the map, for every first line. (Its ends have to
/// be countable in whole units, which they are but within 4 KiB of the end of what a `u64`
/// can count.)
pub proof fn law_map_round_trip(m: Parts, magic: Seq<char>)
    requires
        m.wf(),
        none_empty(m.extents),
        countable(m),
        m.extents.len() <= usize::MAX,
    ensures
        parsed(encode_utf8(map_text(m, magic)), magic) == Some(Some(m)),
{
    reveal_strlit("\n");
    reveal_strlit("\nmap=");
    reveal_strlit("map=");
    let unit = unit_of(m);
    let numbers = map_numbers(m);
    let bytes = pairs(m.extents, unit);
    let packed = base64_text(bytes);
    let body = map_body(m);
    let text = map_text(m, magic);
    // The bytes after the first line are those of the body.
    assert("\n"@ == seq!['\n']);
    crate::text::lemma_encode_concat(magic + "\n"@, body);
    crate::text::lemma_encode_concat(magic, "\n"@);
    is_ascii_chars_encode_utf8("\n"@);
    assert(encode_utf8("\n"@) == seq![10u8]);
    let head = encode_utf8(magic);
    let t = encode_utf8(text);
    assert(t == head + seq![10u8] + encode_utf8(body));
    assert(t.take(head.len() as int) == head);
    assert(t.skip(head.len() as int + 1) == encode_utf8(body));
    assert(after_magic(t, magic) == Some(encode_utf8(body)));
    encode_utf8_valid_utf8(body);
    encode_utf8_decode_utf8(body);
    // Its lines.
    lemma_map_words(m);
    law_base64_round_trip(bytes);
    let line2 = "map="@ + packed;
    assert("\nmap="@ == seq!['\n'] + "map="@);
    assert(body == numbers.push('\n') + (line2.push('\n') + Seq::<char>::empty()));
    assert forall|i: int| 0 <= i < line2.len() implies #[trigger] line2[i] != '\n' && line2[i] != '\r' by {
        if i >= 4 {
            assert(line2[i] == packed[i - 4]);
        }
    }
    crate::text::lemma_lines_push(numbers, line2.push('\n') + Seq::<char>::empty());
    crate::text::lemma_lines_push(line2, Seq::<char>::empty());
    let ls = lines(body);
    assert(ls == seq![numbers, line2]);
    assert(line2.take(4) == "map="@);
    assert(line2.skip(4) == packed);
    // Its numbers.
    lemma_total_fits(m.extents, m.size as int);
    crate::text::law_decimal_round_trip(m.size as nat);
    crate::text::law_decimal_round_trip(total(m.extents));
    crate::text::law_decimal_round_trip(m.extents.len());
    crate::text::law_decimal_round_trip(unit);
    // Its extents.
    lemma_extents_in(m, 0);
    assert(m.extents.take(0) == Seq::<Extent>::empty());
    assert(m.extents.skip(0) == m.extents);
    assert(map_in(body) == Some(m));
}

// ---- Version 2: frames and the seek table -------------------------------------------------

/// Appends the bytes of `more`.
fn push_all(out: &mut Vec<u8>, more: &[u8])
    ensures
        final(out)@ == old(out)@ + more@,
{
    let mut i: usize = 0;
    proof { assert(old(out)@ + more@.take(0) == old(out)@); }
    while i < more.len()
        invariant
            i <= more.len(),
            out@ == old(out)@ + more@.take(i as int),
        decreases more.len() - i,
    {
        out.push(more[i]);
        proof { assert(old(out)@ + more@.take(i + 1) == (old(out)@ + more@.take(i as int)).push(more@[i as int])); }
        i = i + 1;
    }
    proof { assert(more@.take(more@.len() as int) == more@); }
}

/// The skippable frame with the map of `m`.
pub open spec fn map_frame_of(m: Parts) -> Seq<u8> {
    let text = encode_utf8(map_text(m, MAGIC_V2@));
    le32_bytes(MAP_FRAME) + le32_bytes(text.len() as u32) + text
}

/// The skippable frame with the map, which starts a version 2 image.
pub fn map_frame(map: &SpaceMap) -> (frame: Vec<u8>)
    requires
        map@.wf(),
    ensures
        frame@ == map_frame_of(map@),
{
    let text: String = map.to_text(MAGIC_V2);
    let bytes: &[u8] = text.as_str().as_bytes();
    let mut frame: Vec<u8> = Vec::new();
    push_le32(&mut frame, MAP_FRAME);
    push_le32(&mut frame, bytes.len() as u32);
    push_all(&mut frame, bytes);
    frame
}

/// The frame of a map announces its text, and holds it.
pub proof fn lemma_head(m: Parts, rest: Seq<u8>)
    requires
        encode_utf8(map_text(m, MAGIC_V2@)).len() <= MAP_MAX,
    ensures
        announced(map_frame_of(m) + rest) matches Some(len) && head_text(map_frame_of(m) + rest, len) == encode_utf8(
            map_text(m, MAGIC_V2@),
        ),
{
    let text = encode_utf8(map_text(m, MAGIC_V2@));
    let b = map_frame_of(m) + rest;
    assert(b.subrange(0, 4) == le32_bytes(MAP_FRAME));
    assert(b.subrange(4, 8) == le32_bytes(text.len() as u32));
    law_le32_round_trip(b, 0, MAP_FRAME);
    law_le32_round_trip(b, 4, text.len() as u32);
    assert(b.subrange(8, 8 + text.len() as int) == text);
}

/// What starts a version 2 smart image.
pub struct Head {
    /// The map, or why it's unreadable.
    pub map: Result<SpaceMap, String>,
    /// Bytes the map's frame takes in the file.
    pub len: u64,
}

/// The text that the first bytes of a file, a skippable frame for a map, announce: its
/// length, when it can be a map's.
pub open spec fn announced(b: Seq<u8>) -> Option<u32> {
    if b.len() >= 8 && le32_at(b, 0) == MAP_FRAME && le32_at(b, 4) <= MAP_MAX {
        Some(le32_at(b, 4))
    } else {
        None
    }
}

/// The part of the announced text that the file holds.
pub open spec fn head_text(b: Seq<u8>, len: u32) -> Seq<u8> {
    b.subrange(
        8,
        if 8 + len <= b.len() {
            8 + len
        } else {
            b.len() as int
        },
    )
}

/// How many bytes the map at the start of a file takes, its frame's header included, when
/// the first eight bytes say that there is one.
pub fn head_len(start: &[u8]) -> (r: Option<u64>)
    ensures
        match (r, announced(start@)) {
            (Some(n), Some(len)) => n == 8 + len,
            (None, None) => true,
            _ => false,
        },
{
    if start.len() < 8 || le32(start, 0) != MAP_FRAME {
        return None;
    }
    let len: u64 = le32(start, 4) as u64;
    if len > MAP_MAX {
        return None;
    }
    Some(8 + len)
}

/// The map frame at the start of a file that starts with `start` (or holds no more than
/// that). None when there's none: then it isn't a version 2 smart image (maybe plain zstd,
/// or a later version).
pub fn read_head(start: &[u8]) -> (r: Option<Head>)
    ensures
        match r {
            None => announced(start@) matches Some(len) ==> parsed(head_text(start@, len), MAGIC_V2@) is None,
            Some(head) => {
                &&& announced(start@) matches Some(len)
                &&& head.len == 8 + len
                &&& parsed(head_text(start@, len), MAGIC_V2@) matches Some(map)
                &&& match head.map {
                    Ok(m) => 8 + len <= start@.len() && map == Some(m@),
                    Err(e) => if 8 + len > start@.len() {
                        e@ == "the smart image is cut short"@
                    } else {
                        map is None && e@ == damaged_map()
                    },
                }
            },
        },
{
    let whole: u64 = match head_len(start) {
        Some(whole) => whole,
        None => return None,
    };
    let short: bool = whole > start.len() as u64;
    let end: usize = if short {
        start.len()
    } else {
        whole as usize
    };
    let text: &[u8] = slice_subrange(start, 8, end);
    match SpaceMap::parse(text, MAGIC_V2) {
        None => None,
        Some(map) => {
            if short {
                Some(Head { map: Err("the smart image is cut short".to_owned()), len: whole })
            } else {
                Some(Head { map, len: whole })
            }
        },
    }
}

/// A frame as the seek table lists it.
#[derive(Clone, Copy, Debug, PartialEq, Eq, Structural)]
pub struct Frame {
    /// Bytes in the file.
    pub packed: u32,
    /// Bytes once decompressed.
    pub len: u32,
}

/// The entries of a seek table.
pub open spec fn entries(frames: Seq<Frame>) -> Seq<u8>
    decreases frames.len(),
{
    if frames.len() == 0 {
        Seq::empty()
    } else {
        entries(frames.drop_last()) + le32_bytes(frames.last().packed) + le32_bytes(frames.last().len)
    }
}

/// The footer of a seek table of `count` frames.
pub open spec fn seek_footer(count: nat) -> Seq<u8> {
    le32_bytes(count as u32) + seq![0u8] + le32_bytes(SEEKABLE_MAGIC)
}

pub open spec fn seek_table_of(frames: Seq<Frame>) -> Seq<u8> {
    le32_bytes(SEEK_TABLE_FRAME) + le32_bytes((8 * frames.len() + FOOTER_LEN) as u32) + entries(frames)
        + seek_footer(frames.len())
}

/// The seek table (a skippable frame) that ends a version 2 image and lists `frames`.
pub fn seek_table(frames: &[Frame]) -> (table: Vec<u8>)
    ensures
        table@ == seek_table_of(frames@),
{
    let body: u128 = 8 * frames.len() as u128 + FOOTER_LEN as u128;
    let mut table: Vec<u8> = Vec::new();
    push_le32(&mut table, SEEK_TABLE_FRAME);
    push_le32(&mut table, body as u32);
    let ghost head = table@;
    let mut i: usize = 0;
    proof { assert(frames@.take(0) == Seq::<Frame>::empty()); }
    while i < frames.len()
        invariant
            i <= frames.len(),
            table@ == head + entries(frames@.take(i as int)),
        decreases frames.len() - i,
    {
        push_le32(&mut table, frames[i].packed);
        push_le32(&mut table, frames[i].len);
        proof {
            let t = frames@.take(i + 1);
            assert(t.drop_last() == frames@.take(i as int));
            assert(table@ == head + entries(t));
        }
        i = i + 1;
    }
    proof { assert(frames@.take(frames@.len() as int) == frames@); }
    push_le32(&mut table, frames.len() as u32);
    table.push(0);
    push_le32(&mut table, SEEKABLE_MAGIC);
    proof { assert(table@ == seek_table_of(frames@)); }
    table
}

/// Where a seek table stands, and what its entries look like.
#[derive(Clone, Copy, Debug, PartialEq, Eq, Structural)]
pub struct TablePlace {
    /// Where it starts (where the frames end).
    pub start: u64,
    /// Its bytes before the footer.
    pub len: u64,
    /// Bytes in an entry: with or without a checksum.
    pub entry: u64,
}

/// What the footer of a file of `size` bytes says of its seek table.
pub open spec fn place_of(footer: Seq<u8>, size: u64) -> Result<TablePlace, Fault> {
    let entry = if footer[4] & 0x80 != 0 {
        12int
    } else {
        8int
    };
    let count = le32_at(footer, 0);
    let body = count * entry + FOOTER_LEN;
    if size < 8 + FOOTER_LEN || le32_at(footer, 5) != SEEKABLE_MAGIC {
        Err(bad_fault("no seek table"@))
    } else if footer[4] & 0x7c != 0 {
        Err(bad_fault("a seek table of an unknown kind"@))
    } else if count > MAX_FRAMES || 8 + body > size {
        Err(bad_fault("a damaged seek table"@))
    } else {
        Ok(TablePlace { start: (size - 8 - body) as u64, len: (8 + count * entry) as u64, entry: entry as u64 })
    }
}

/// The place of a seek table lies in the file, and holds whole entries.
pub proof fn lemma_place(footer: Seq<u8>, size: u64)
    ensures
        place_of(footer, size) matches Ok(place) ==> {
            &&& place.entry == 8 || place.entry == 12
            &&& place.len >= 8
            &&& (place.len - 8) % place.entry as int == 0
            &&& place.start + place.len + FOOTER_LEN == size
        },
{
    if let Ok(place) = place_of(footer, size) {
        let count = le32_at(footer, 0) as int;
        let entry = place.entry as int;
        assert((count * entry) % entry == 0) by (nonlinear_arith)
            requires
                entry == 8 || entry == 12,
        ;
    }
}

/// Where the seek table of a file of `size` bytes stands, by its last nine bytes. An error
/// when there's none.
pub fn seek_table_place(footer: &[u8], size: u64) -> (r: Result<TablePlace, Error>)
    requires
        footer@.len() == FOOTER_LEN,
    ensures
        crate::error::gives(r, place_of(footer@, size)),
{
    if size < 8 + FOOTER_LEN as u64 {
        return Err(bad("no seek table"));
    }
    if le32(footer, 5) != SEEKABLE_MAGIC {
        return Err(bad("no seek table"));
    }
    let descriptor: u8 = footer[4];
    if descriptor & 0x7c != 0 {
        return Err(bad("a seek table of an unknown kind"));
    }
    let entry: u64 = if descriptor & 0x80 != 0 {
        12
    } else {
        8
    };
    let count: u64 = le32(footer, 0) as u64;
    let body: u64 = count * entry + FOOTER_LEN as u64;
    if count > MAX_FRAMES || 8 + body > size {
        return Err(bad("a damaged seek table"));
    }
    Ok(TablePlace { start: size - 8 - body, len: 8 + count * entry, entry })
}

/// The frame that the entry at `at` lists.
pub open spec fn entry_at(table: Seq<u8>, at: int) -> Frame {
    Frame { packed: le32_at(table, at), len: le32_at(table, at + 4) }
}

/// The frames that the table's bytes, up to its footer, list.
pub open spec fn listed(table: Seq<u8>, place: TablePlace) -> Result<Seq<Frame>, Fault> {
    if le32_at(table, 0) != SEEK_TABLE_FRAME || le32_at(table, 4) != place.len - 8 + FOOTER_LEN {
        Err(bad_fault("a damaged seek table"@))
    } else {
        Ok(
            Seq::new(
                ((place.len - 8) / place.entry as int) as nat,
                |i: int| entry_at(table, 8 + i * place.entry),
            ),
        )
    }
}

/// The frames that a seek table lists, and where it starts (where the frames end); `table`
/// holds its bytes up to the footer.
pub fn read_seek_table(table: &[u8], place: TablePlace) -> (r: Result<(Vec<Frame>, u64), Error>)
    requires
        place.entry == 8 || place.entry == 12,
        place.len >= 8,
        (place.len - 8) % place.entry as int == 0,
        table@.len() == place.len,
    ensures
        match (r, listed(table@, place)) {
            (Ok((frames, start)), Ok(l)) => frames@ == l && start == place.start,
            (Err(e), Err(f)) => e@ == f,
            _ => false,
        },
{
    if le32(table, 0) != SEEK_TABLE_FRAME || le32(table, 4) as u64 != place.len - 8 + FOOTER_LEN as u64 {
        return Err(bad("a damaged seek table"));
    }
    let mut frames: Vec<Frame> = Vec::new();
    let mut at: usize = 8;
    let entry: usize = place.entry as usize;
    let ghost n = (place.len - 8) / place.entry as int;
    assert(n * entry == place.len - 8) by (nonlinear_arith)
        requires
            n == (place.len - 8) / place.entry as int,
            (place.len - 8) % place.entry as int == 0,
            entry == place.entry,
            entry == 8 || entry == 12,
    ;
    while at < table.len()
        invariant
            table@.len() == place.len,
            entry == place.entry,
            entry == 8 || entry == 12,
            n == (place.len - 8) / place.entry as int,
            n * entry == place.len - 8,
            at == 8 + frames@.len() * entry,
            frames@.len() <= n,
            forall|i: int| 0 <= i < frames@.len() ==> #[trigger] frames@[i] == entry_at(table@, 8 + i * place.entry),
        decreases n - frames@.len(),
    {
        proof {
            let k = frames@.len() as int;
            assert(k < n) by (nonlinear_arith)
                requires
                    k * entry < n * entry,
                    entry > 0,
            ;
            assert((k + 1) * entry <= n * entry) by (nonlinear_arith)
                requires
                    k + 1 <= n,
                    entry > 0,
            ;
            assert((k + 1) * entry == k * entry + entry) by (nonlinear_arith);
        }
        frames.push(Frame { packed: le32(table, at), len: le32(table, at + 4) });
        at = at + entry;
    }
    proof {
        let k = frames@.len() as int;
        assert(k == n) by (nonlinear_arith)
            requires
                k <= n,
                k * entry >= n * entry,
                entry > 0,
        ;
    }
    Ok((frames, place.start))
}

proof fn lemma_entries(frames: Seq<Frame>, pre: Seq<u8>, post: Seq<u8>, i: int)
    requires
        0 <= i < frames.len(),
    ensures
        entries(frames).len() == 8 * frames.len(),
        entry_at(pre + entries(frames) + post, pre.len() + i * 8) == frames[i],
    decreases frames.len(),
{
    let rest = frames.drop_last();
    let f = frames.last();
    let (a, b) = (le32_bytes(f.packed), le32_bytes(f.len));
    let all = pre + entries(frames) + post;
    if rest.len() > 0 {
        lemma_entries(rest, pre, a + b + post, 0);
    }
    assert(entries(rest).len() == 8 * rest.len());
    if i == rest.len() {
        let at = pre.len() + i * 8;
        assert(all.subrange(at, at + 4) == a);
        assert(all.subrange(at + 4, at + 8) == b);
        law_le32_round_trip(all, at, f.packed);
        law_le32_round_trip(all, at + 4, f.len);
    } else {
        lemma_entries(rest, pre, a + b + post, i);
        assert(all == pre + entries(rest) + (a + b + post));
    }
}

proof fn lemma_seek_footer(n: nat)
    requires
        n <= MAX_FRAMES,
    ensures
        seek_footer(n).len() == FOOTER_LEN,
        le32_at(seek_footer(n), 0) == n,
        le32_at(seek_footer(n), 5) == SEEKABLE_MAGIC,
        seek_footer(n)[4] & 0x80 == 0,
        seek_footer(n)[4] & 0x7c == 0,
{
    let footer = seek_footer(n);
    assert(footer.subrange(0, 4) == le32_bytes(n as u32));
    assert(footer.subrange(5, 9) == le32_bytes(SEEKABLE_MAGIC));
    law_le32_round_trip(footer, 0, n as u32);
    law_le32_round_trip(footer, 5, SEEKABLE_MAGIC);
    assert(footer[4] == 0);
    assert(0u8 & 0x80 == 0 && 0u8 & 0x7c == 0) by (bit_vector);
}

proof fn lemma_seek_entries(frames: Seq<Frame>, place: TablePlace)
    requires
        frames.len() <= MAX_FRAMES,
        place.entry == 8,
        place.len == 8 + 8 * frames.len(),
    ensures
        listed(
            le32_bytes(SEEK_TABLE_FRAME) + le32_bytes((8 * frames.len() + FOOTER_LEN) as u32) + entries(frames),
            place,
        ) == Ok::<Seq<Frame>, Fault>(frames),
{
    let n = frames.len();
    lemma_entries_len(frames);
    let body = le32_bytes((8 * n + FOOTER_LEN) as u32);
    let head = le32_bytes(SEEK_TABLE_FRAME) + body;
    let table = head + entries(frames);
    assert(table.subrange(0, 4) == le32_bytes(SEEK_TABLE_FRAME));
    assert(table.subrange(4, 8) == body);
    law_le32_round_trip(table, 0, SEEK_TABLE_FRAME);
    law_le32_round_trip(table, 4, (8 * n + FOOTER_LEN) as u32);
    let l = Seq::new(((place.len - 8) / place.entry as int) as nat, |i: int| entry_at(table, 8 + i * place.entry));
    assert(l.len() == n);
    assert forall|i: int| 0 <= i < n implies l[i] == frames[i] by {
        lemma_entries(frames, head, Seq::empty(), i);
        assert(head + entries(frames) + Seq::<u8>::empty() == table);
    }
    assert(l == frames);
}

/// The seek table at the end of a file gives back the frames it was made of, and where it
/// starts.
pub proof fn law_seek_table_round_trip(before: Seq<u8>, frames: Seq<Frame>)
    requires
        frames.len() <= MAX_FRAMES,
        before.len() + 8 * frames.len() + 17 <= u64::MAX,
    ensures
        ({
            let file = before + seek_table_of(frames);
            let size = file.len() as u64;
            let footer = file.skip(file.len() - FOOTER_LEN);
            &&& place_of(footer, size) matches Ok(place)
            &&& place.start == before.len()
            &&& place.start + place.len + FOOTER_LEN == file.len()
            &&& (place.entry == 8 || place.entry == 12)
            &&& place.len >= 8
            &&& (place.len - 8) % place.entry as int == 0
            &&& listed(file.subrange(place.start as int, place.start + place.len), place) == Ok::<Seq<Frame>, Fault>(frames)
        }),
{
    let file = before + seek_table_of(frames);
    let footer = file.skip(file.len() - FOOTER_LEN);
    let n = frames.len();
    lemma_entries_len(frames);
    lemma_seek_footer(n);
    let head = le32_bytes(SEEK_TABLE_FRAME) + le32_bytes((8 * n + FOOTER_LEN) as u32);
    let table = head + entries(frames);
    assert(seek_table_of(frames) == table + seek_footer(n));
    assert(footer == seek_footer(n));
    let place = TablePlace { start: before.len() as u64, len: (8 + 8 * n) as u64, entry: 8 };
    assert(file.subrange(place.start as int, place.start + place.len) == table);
    lemma_seek_entries(frames, place);
}

/// How long a seek table is.
pub proof fn lemma_seek_table_len(frames: Seq<Frame>)
    ensures
        seek_table_of(frames).len() == 8 * frames.len() + 17,
{
    lemma_entries_len(frames);
}

proof fn lemma_entries_len(frames: Seq<Frame>)
    ensures
        entries(frames).len() == 8 * frames.len(),
    decreases frames.len(),
{
    if frames.len() > 0 {
        lemma_entries_len(frames.drop_last());
    }
}

// ---- Version 2: compression ---------------------------------------------------------------

/// A zstd compressor, held for its state.
#[verifier::external_type_specification]
#[verifier::external_body]
pub struct ExCompressor<'a>(zstd::bulk::Compressor<'a>);

/// What `zstd::bulk::decompress` makes of `frame` when it has room for all of it; none when
/// it fails.
pub uninterp spec fn zstd_content(frame: Seq<u8>) -> Option<Seq<u8>>;

/// `zstd::bulk::decompress`: what a frame holds, if it decodes (its checksum, if it has one,
/// included) and holds no more than `room` bytes.
#[verifier::external_body]
pub(crate) fn unpack_frame(frame: &[u8], room: usize) -> (r: Option<Vec<u8>>)
    requires
        room <= 0x7fff_ffff,
    ensures
        match (r, zstd_content(frame@)) {
            (Some(v), Some(c)) => v@ == c && c.len() <= room,
            (Some(_), None) => false,
            (None, Some(c)) => c.len() > room,
            (None, None) => true,
        },
{
    zstd::bulk::decompress(frame, room).ok()
}

/// What a `zstd::bulk::Compressor` is set to.
pub ghost struct Settings {
    pub level: i32,
    /// The sizes of its two tables.
    pub hash_log: u32,
    pub chain_log: u32,
    /// Does it write checksums and content sizes into its frames?
    pub checksums: bool,
    pub sizes: bool,
    /// Is everything else as it is for a new compressor: no dictionary, the usual format?
    pub plain: bool,
}

pub uninterp spec fn compressor_set(c: zstd::bulk::Compressor<'static>) -> Settings;

/// `zstd::bulk::Compressor::new` and its `set_parameter`: a compressor of a level and
/// without a dictionary, which writes sizes and checksums into its frames, with the given
/// sizes of its tables. Whether one can be had depends on the machine.
#[verifier::external_body]
fn new_compressor(level: i32, hash_log: u32, chain_log: u32) -> (r: Result<zstd::bulk::Compressor<'static>, String>)
    ensures
        r matches Ok(c) ==> compressor_set(c) == (Settings {
            level,
            hash_log,
            chain_log,
            checksums: true,
            sizes: true,
            plain: true,
        }),
{
    let make = || {
        let mut c = zstd::bulk::Compressor::new(level)?;
        c.set_parameter(zstd::zstd_safe::CParameter::ChecksumFlag(true))?;
        c.set_parameter(zstd::zstd_safe::CParameter::ContentSizeFlag(true))?;
        c.set_parameter(zstd::zstd_safe::CParameter::HashLog(hash_log))?;
        c.set_parameter(zstd::zstd_safe::CParameter::ChainLog(chain_log))?;
        Ok::<_, std::io::Error>(c)
    };
    make().map_err(|e| e.to_string())
}

/// The settings of a compressor for used data.
pub open spec fn for_used_data() -> Settings {
    Settings { level: LEVEL, hash_log: 16, chain_log: 15, checksums: true, sizes: true, plain: true }
}

/// A compressor for used data: level 3, with sizes and checksums in the frames.
///
/// Its two hash tables are a size smaller than level 3's own (256 + 128 KiB instead of
/// 512 + 256 KiB), so that they stay in a core's L2 cache while several threads compress
/// at once. Decoders don't see a difference (the window stays 2 MiB).
pub fn compressor() -> (r: Result<zstd::bulk::Compressor<'static>, String>)
    ensures
        r matches Ok(c) ==> compressor_set(c) == for_used_data(),
{
    new_compressor(LEVEL, 16, 15)
}

/// The most bytes that zstd makes of `n` bytes.
pub open spec fn packed_most(n: nat) -> nat {
    n + n / 256 + 64
}

/// Does the header of a frame say that a checksum of its content ends it?
pub open spec fn has_checksum(frame: Seq<u8>) -> bool {
    frame.len() >= 5 && (frame[4] / 4) % 2 == 1
}

/// Is `frame` a frame as a smart image has them, with that content: one that decodes to it,
/// records its size and a checksum of it, and is hardly bigger than it?
pub open spec fn is_frame(frame: Seq<u8>, content: Seq<u8>) -> bool {
    &&& zstd_content(frame) == Some(content)
    &&& content_from(frame, 0) == Some(content.len() as u64)
    &&& has_checksum(frame)
    &&& frame.len() <= packed_most(content.len())
}

/// `zstd::bulk::Compressor::compress_to_buffer` into a buffer as big as `compress_bound`
/// says: one frame with `data`, in `out` (whose old content goes). A frame that was
/// written decodes to the data, is no bigger than `compress_bound` says, and its header has
/// the content's size and tells of a checksum if the compressor is set to that. Which bytes
/// it has, and when zstd fails, is not stated.
#[verifier::external_body]
pub fn compress(c: &mut zstd::bulk::Compressor<'static>, data: &[u8], out: &mut Vec<u8>) -> (r: Result<(), String>)
    requires
        data@.len() <= usize::MAX / 4,
        compressor_set(*old(c)).plain,
    ensures
        r is Ok ==> zstd_content(final(out)@) == Some(data@) && final(out)@.len() <= packed_most(data@.len()),
        r is Ok && compressor_set(*old(c)).sizes ==> content_from(final(out)@, 0) == Some(data@.len() as u64),
        r is Ok && compressor_set(*old(c)).checksums ==> has_checksum(final(out)@),
        compressor_set(*final(c)) == compressor_set(*old(c)),
{
    out.clear();
    out.reserve(zstd::zstd_safe::compress_bound(data.len()));
    c.compress_to_buffer(data, out).map(|_| ()).map_err(|e| e.to_string())
}

/// `len` zeros.
pub open spec fn zeros(len: nat) -> Seq<u8> {
    Seq::new(len, |i: int| 0u8)
}

/// `zstd::stream::write::Encoder`: one frame of `len` zeros, with its size and a checksum.
/// A frame that was made decodes to the zeros, and is no bigger than zstd's bound for as
/// many bytes. Which bytes it has, and when zstd fails, is not stated.
#[verifier::external_body]
fn zeros_frame(len: u64, level: i32) -> (r: Result<Vec<u8>, String>)
    ensures
        r matches Ok(f) ==> is_frame(f@, zeros(len as nat)),
{
    let make = || {
        let mut encoder = zstd::stream::write::Encoder::new(Vec::new(), level)?;
        encoder.include_checksum(true)?;
        encoder.set_pledged_src_size(Some(len))?;
        std::io::copy(&mut std::io::Read::take(std::io::repeat(0), len), &mut encoder)?;
        encoder.finish()
    };
    make().map_err(|e: std::io::Error| e.to_string())
}

/// Frames of zeros: each size compressed once, then repeated.
pub struct Zeros {
    pub frames: std::collections::HashMap<u64, Vec<u8>>,
}

/// The biggest power of two that is no more than `n`.
pub open spec fn floor_pow2(n: nat) -> nat
    decreases n,
{
    if n < 2 {
        1
    } else {
        2 * floor_pow2(n / 2)
    }
}

/// The first frame that `len` bytes of free space are cut into.
pub open spec fn first_piece(len: nat) -> nat {
    if len >= ZEROS_MAX {
        ZEROS_MAX as nat
    } else if len >= 4096 {
        floor_pow2(len)
    } else {
        len
    }
}

proof fn lemma_floor_pow2(n: nat)
    requires
        n >= 1,
    ensures
        1 <= floor_pow2(n) <= n < 2 * floor_pow2(n),
    decreases n,
{
    if n >= 2 {
        lemma_floor_pow2(n / 2);
    }
}

/// How `len` bytes of free space get cut into frames.
pub open spec fn zero_pieces(len: nat) -> Seq<u64>
    decreases len,
    via zero_pieces_shrink
{
    if len == 0 {
        Seq::empty()
    } else {
        seq![first_piece(len) as u64] + zero_pieces((len - first_piece(len)) as nat)
    }
}

#[via_fn]
proof fn zero_pieces_shrink(len: nat) {
    if len > 0 {
        lemma_floor_pow2(len);
    }
}

/// The sum of some lengths.
pub open spec fn sum(v: Seq<u64>) -> nat
    decreases v.len(),
{
    if v.len() == 0 {
        0
    } else {
        v[0] as nat + sum(v.skip(1))
    }
}

/// Is `n` a power of two?
pub open spec fn is_pow2(n: nat) -> bool {
    n >= 1 && floor_pow2(n) == n
}

proof fn lemma_floor_pow2_idempotent(n: nat)
    requires
        n >= 1,
    ensures
        floor_pow2(floor_pow2(n)) == floor_pow2(n),
    decreases n,
{
    if n >= 2 {
        lemma_floor_pow2(n / 2);
        lemma_floor_pow2_idempotent(n / 2);
        assert(2 * floor_pow2(n / 2) / 2 == floor_pow2(n / 2));
    }
}

/// The frames of free space add up to it. None is empty, none holds more than 64 MiB, and
/// all but the last one are 64 MiB or a power of two of at least 4 KiB.
pub proof fn law_zero_pieces(len: nat)
    requires
        len <= u64::MAX,
    ensures
        sum(zero_pieces(len)) == len,
        forall|i: int| 0 <= i < zero_pieces(len).len() ==> 0 < #[trigger] zero_pieces(len)[i] <= ZEROS_MAX,
        forall|i: int|
            0 <= i < zero_pieces(len).len() - 1 ==> is_pow2((#[trigger] zero_pieces(len)[i]) as nat) && zero_pieces(
                len,
            )[i] >= 4096,
    decreases len,
{
    if len > 0 {
        let p = first_piece(len);
        lemma_floor_pow2(len);
        let rest = (len - p) as nat;
        law_zero_pieces(rest);
        let v = zero_pieces(len);
        let w = zero_pieces(rest);
        assert(v == seq![p as u64] + w);
        assert(v.skip(1) == w);
        assert forall|i: int| 0 <= i < v.len() implies 0 < #[trigger] v[i] <= ZEROS_MAX by {
            if i > 0 {
                assert(v[i] == w[i - 1]);
            }
        }
        assert forall|i: int| 0 <= i < v.len() - 1 implies is_pow2((#[trigger] v[i]) as nat) && v[i] >= 4096 by {
            if i > 0 {
                assert(v[i] == w[i - 1]);
            } else {
                assert(rest > 0) by {
                    if rest == 0 {
                        assert(w == Seq::<u64>::empty());
                    }
                }
                assert(len >= 4096);
                if len >= ZEROS_MAX {
                    assert(floor_pow2(ZEROS_MAX as nat) == ZEROS_MAX) by {
                        reveal_with_fuel(floor_pow2, 28);
                    }
                } else {
                    lemma_floor_pow2_idempotent(len);
                    lemma_at_least_4096(len);
                }
            }
        }
    }
}

proof fn lemma_at_least_4096(n: nat)
    requires
        n >= 4096,
    ensures
        floor_pow2(n) >= 4096,
{
    lemma_floor_pow2(n);
    lemma_pow2_monotone(4096, n);
    assert(floor_pow2(4096) == 4096) by {
        reveal_with_fuel(floor_pow2, 14);
    }
}

proof fn lemma_pow2_monotone(a: nat, b: nat)
    requires
        1 <= a <= b,
    ensures
        floor_pow2(a) <= floor_pow2(b),
    decreases b,
{
    if b >= 2 {
        if a >= 2 {
            lemma_pow2_monotone(a / 2, b / 2);
        } else {
            lemma_floor_pow2(b / 2);
        }
    }
}

impl Zeros {
    /// Every frame that is kept is one of as many zeros as it is kept for.
    pub open spec fn wf(&self) -> bool {
        forall|len: u64|
            self.frames@.contains_key(len) ==> is_frame((#[trigger] self.frames@[len])@, zeros(len as nat))
    }

    pub fn new() -> (z: Zeros)
        ensures
            z.wf(),
            z.frames@ == vstd::map::Map::<u64, Vec<u8>>::empty(),
    {
        Zeros { frames: std::collections::HashMap::new() }
    }

    /// How `len` bytes of free space get cut into frames: 64 MiB at a time, then powers of
    /// two down to 4 KiB (gaps are 4 KiB-aligned), then whatever is left at the very end of
    /// a drive. That keeps the number of different frames small.
    pub fn pieces(len: u64) -> (v: Vec<u64>)
        ensures
            v@ == zero_pieces(len as nat),
    {
        let mut v: Vec<u64> = Vec::new();
        let mut left: u64 = len;
        while left > 0
            invariant
                zero_pieces(len as nat) == v@ + zero_pieces(left as nat),
            decreases left,
        {
            proof { lemma_floor_pow2(left as nat); }
            let piece: u64 = if left >= ZEROS_MAX {
                ZEROS_MAX
            } else if left >= 4096 {
                Self::power_below(left)
            } else {
                left
            };
            let ghost before = v@;
            v.push(piece);
            proof {
                assert(piece == first_piece(left as nat));
                let rest = zero_pieces((left - piece) as nat);
                assert(before + (seq![piece] + rest) == v@ + rest);
            }
            left = left - piece;
        }
        proof { assert(v@ + Seq::<u64>::empty() == v@); }
        v
    }

    fn power_below(n: u64) -> (p: u64)
        requires
            1 <= n,
        ensures
            p == floor_pow2(n as nat),
        decreases n,
    {
        if n < 2 {
            1
        } else {
            proof { lemma_floor_pow2((n / 2) as nat); }
            2 * Self::power_below(n / 2)
        }
    }

    /// The frame for `len` bytes of zeros (`len` being one of the `pieces`).
    pub fn frame(&mut self, len: u64) -> (r: Result<Vec<u8>, String>)
        requires
            old(self).wf(),
        ensures
            final(self).wf(),
            match r {
                Ok(f) => {
                    &&& is_frame(f@, zeros(len as nat))
                    &&& final(self).frames@.contains_key(len)
                    &&& final(self).frames@[len]@ == f@
                    &&& final(self).frames@.remove(len) == old(self).frames@.remove(len)
                },
                Err(_) => *final(self) == *old(self),
            },
            old(self).frames@.contains_key(len) ==> r is Ok && final(self).frames@ == old(self).frames@,
    {
        broadcast use vstd::std_specs::hash::group_hash_axioms;
        match self.frames.get(&len) {
            Some(f) => Ok(slice_to_vec(f.as_slice())),
            None => match zeros_frame(len, LEVEL) {
                Ok(f) => {
                    let copy: Vec<u8> = slice_to_vec(f.as_slice());
                    self.frames.insert(len, f);
                    Ok(copy)
                },
                Err(e) => Err(e),
            },
        }
    }
}

// ---- Version 1: member headers ------------------------------------------------------------

/// A gzip member header, as far as restores care.
pub struct Header {
    /// Bytes the header takes.
    pub len: u64,
    /// From the `DG` subfield: (member size in the file, uncompressed size).
    pub sizes: Option<(u64, u64)>,
    pub comment: Option<Vec<u8>>,
}

/// What a `Header` says.
pub ghost struct Member {
    pub len: nat,
    pub sizes: Option<(u64, u64)>,
    pub comment: Option<Seq<u8>>,
}

impl View for Header {
    type V = Member;

    open spec fn view(&self) -> Member {
        Member {
            len: self.len as nat,
            sizes: self.sizes,
            comment: match self.comment {
                Some(c) => Some(c@),
                None => None,
            },
        }
    }
}

pub open spec fn gzip_fault(what: Seq<char>) -> Fault {
    bad_fault("invalid gzip data ("@ + what + ")"@)
}

pub open spec fn eof_fault() -> Fault {
    Fault { kind: Kind::UnexpectedEof, what: "failed to fill whole buffer"@ }
}

/// The sizes in the subfields of `extra`: those of the last `DG` subfield of eight bytes.
pub open spec fn dg_sizes(extra: Seq<u8>, found: Option<(u64, u64)>) -> Option<(u64, u64)>
    decreases extra.len(),
{
    let len = le16_at(extra, 2);
    if extra.len() < 4 || 4 + len > extra.len() {
        found
    } else {
        dg_sizes(
            extra.skip(4 + len),
            if extra[0] == 0x44 && extra[1] == 0x47 && len == 8 {
                Some((le32_at(extra, 4) as u64, le32_at(extra, 8) as u64))
            } else {
                found
            },
        )
    }
}

/// Where the first zero byte stands in `b` from `at` on; its length when there is none.
pub open spec fn zero_from(b: Seq<u8>, at: int) -> int
    decreases b.len() - at,
{
    if at < b.len() && b[at] != 0 {
        zero_from(b, at + 1)
    } else {
        at
    }
}

/// The end (past its zero byte) of a text at `at` that has to end within `limit` bytes.
pub open spec fn text_end(b: Seq<u8>, at: int, limit: int) -> Option<int> {
    let z = zero_from(b, at);
    if z < b.len() && z < at + limit {
        Some(z + 1)
    } else {
        None
    }
}

/// Where the fixed fields and the extra field end.
pub open spec fn extra_end(b: Seq<u8>) -> Result<int, Fault> {
    if b[3] & 0x04 == 0 {
        Ok(10)
    } else if b.len() < 12 || 12 + le16_at(b, 10) > b.len() {
        Err(eof_fault())
    } else {
        Ok(12 + le16_at(b, 10))
    }
}

/// Where a text that the flag `flag` announces ends: `at` when there is none.
pub open spec fn flagged_end(b: Seq<u8>, at: int, flag: u8, limit: int) -> Result<int, Fault> {
    if b[3] & flag == 0 {
        Ok(at)
    } else {
        match text_end(b, at, limit) {
            Some(end) => Ok(end),
            None => Err(gzip_fault("unterminated name or comment"@)),
        }
    }
}

/// The member header that `b` starts with (RFC 1952 section 2.3).
pub open spec fn member_of(b: Seq<u8>) -> Result<Member, Fault> {
    if b.len() < 10 {
        Err(eof_fault())
    } else if b[0] != 0x1f || b[1] != 0x8b || b[2] != 8 {
        Err(gzip_fault("no member header where one should start"@))
    } else if b[3] & 0xe0 != 0 {
        Err(gzip_fault("reserved header flags"@))
    } else {
        match extra_end(b) {
            Err(f) => Err(f),
            Ok(x) => match flagged_end(b, x, 0x08, 0x1_0000) {
                Err(f) => Err(f),
                Ok(n) => match flagged_end(b, n, 0x10, MAP_MAX as int) {
                    Err(f) => Err(f),
                    Ok(c) => {
                        let end = if b[3] & 0x02 != 0 {
                            c + 2
                        } else {
                            c
                        };
                        if end > b.len() {
                            Err(eof_fault())
                        } else {
                            Ok(
                                Member {
                                    len: end as nat,
                                    sizes: if b[3] & 0x04 != 0 {
                                        dg_sizes(b.subrange(12, x), None)
                                    } else {
                                        None
                                    },
                                    comment: if b[3] & 0x10 != 0 {
                                        Some(b.subrange(n, c - 1))
                                    } else {
                                        None
                                    },
                                },
                            )
                        }
                    },
                },
            },
        }
    }
}

fn gzip_error(what: &str) -> (e: Error)
    ensures
        e@ == gzip_fault(what@),
{
    let mut s: String = "invalid gzip data (".to_owned();
    s.append(what);
    s.append(")");
    Error { kind: Kind::InvalidData, what: s }
}

fn eof_error() -> (e: Error)
    ensures
        e@ == eof_fault(),
{
    Error { kind: Kind::UnexpectedEof, what: "failed to fill whole buffer".to_owned() }
}

fn find_sizes(extra: &[u8]) -> (r: Option<(u64, u64)>)
    ensures
        r == dg_sizes(extra@, None),
{
    let mut found: Option<(u64, u64)> = None;
    let mut at: usize = 0;
    proof { assert(extra@.skip(0) == extra@); }
    while extra.len() - at >= 4
        invariant
            at <= extra.len(),
            dg_sizes(extra@, None) == dg_sizes(extra@.skip(at as int), found),
        decreases extra.len() - at,
    {
        let ghost rest = extra@.skip(at as int);
        let len: usize = le16(extra, at + 2) as usize;
        assert(le16_at(rest, 2) == len);
        if extra.len() - at - 4 < len {
            return found;
        }
        if extra[at] == 0x44 && extra[at + 1] == 0x47 && len == 8 {
            found = Some((le32(extra, at + 4) as u64, le32(extra, at + 8) as u64));
            proof {
                assert(le32_at(rest, 4) == le32_at(extra@, at + 4));
                assert(le32_at(rest, 8) == le32_at(extra@, at + 8));
            }
        }
        at = at + 4 + len;
        proof { assert(rest.skip(4 + len) == extra@.skip(at as int)); }
    }
    found
}

fn find_end(b: &[u8], at: usize, flag: u8, limit: usize) -> (r: Result<usize, Error>)
    requires
        10 <= at <= b@.len(),
    ensures
        match (r, flagged_end(b@, at as int, flag, limit as int)) {
            (Ok(end), Ok(e)) => end == e && at <= end <= b@.len() && (b@[3] & flag != 0 ==> at < end),
            (Err(e), Err(f)) => e@ == f,
            _ => false,
        },
{
    if b[3] & flag == 0 {
        return Ok(at);
    }
    let mut z: usize = at;
    while z < b.len() && b[z] != 0
        invariant
            at <= z <= b@.len(),
            zero_from(b@, at as int) == zero_from(b@, z as int),
        decreases b@.len() - z,
    {
        z = z + 1;
    }
    if z < b.len() && z - at < limit {
        Ok(z + 1)
    } else {
        Err(gzip_error("unterminated name or comment"))
    }
}

/// The member header that `b` starts with (RFC 1952 section 2.3); `b` holds the file from
/// there on.
pub fn read_header(b: &[u8]) -> (r: Result<Header, Error>)
    ensures
        match (r, member_of(b@)) {
            (Ok(h), Ok(m)) => h@ == m,
            (Err(e), Err(f)) => e@ == f,
            _ => false,
        },
{
    if b.len() < 10 {
        return Err(eof_error());
    }
    if b[0] != 0x1f || b[1] != 0x8b || b[2] != 8 {
        return Err(gzip_error("no member header where one should start"));
    }
    let flags: u8 = b[3];
    if flags & 0xe0 != 0 {
        return Err(gzip_error("reserved header flags"));
    }
    let mut x: usize = 10;
    let mut sizes: Option<(u64, u64)> = None;
    if flags & 0x04 != 0 {
        if b.len() < 12 {
            return Err(eof_error());
        }
        let len: usize = le16(b, 10) as usize;
        if b.len() - 12 < len {
            return Err(eof_error());
        }
        x = 12 + len;
        sizes = find_sizes(slice_subrange(b, 12, x));
    }
    // Limits keep a hostile file from making a look at it eat memory.
    let n: usize = match find_end(b, x, 0x08, 0x1_0000) {
        Ok(n) => n,
        Err(e) => return Err(e),
    };
    let c: usize = match find_end(b, n, 0x10, MAP_MAX as usize) {
        Ok(c) => c,
        Err(e) => return Err(e),
    };
    let comment: Option<Vec<u8>> = if flags & 0x10 != 0 {
        Some(slice_to_vec(slice_subrange(b, n, c - 1)))
    } else {
        None
    };
    let mut end: usize = c;
    if flags & 0x02 != 0 {
        if b.len() - c < 2 {
            return Err(eof_error());
        }
        end = c + 2;
    }
    Ok(Header { len: end as u64, sizes, comment })
}

// ---- Walking a map ------------------------------------------------------------------------

/// The first extent, from `from` on, that ends after `pos`; the number of extents when
/// there is none.
pub open spec fn first_after(extents: Seq<Extent>, pos: int, from: int) -> int
    decreases extents.len() - from,
{
    if 0 <= from < extents.len() && extents[from].end() <= pos {
        first_after(extents, pos, from + 1)
    } else {
        from
    }
}

/// The run starting at `pos`, at most `len` long: (holds data, length).
pub open spec fn run_at(extents: Seq<Extent>, pos: int, len: int) -> (bool, int) {
    let i = first_after(extents, pos, 0);
    if i >= extents.len() {
        (false, len)
    } else if extents[i].start <= pos {
        let left = extents[i].end() - pos;
        (
            true,
            if len <= left {
                len
            } else {
                left
            },
        )
    } else {
        let left = extents[i].start - pos;
        (
            false,
            if len <= left {
                len
            } else {
                left
            },
        )
    }
}

proof fn lemma_first_after(extents: Seq<Extent>, pos: int, from: int)
    requires
        0 <= from <= extents.len(),
        forall|i: int| 0 <= i < from ==> (#[trigger] extents[i]).end() <= pos,
    ensures
        first_after(extents, pos, 0) == first_after(extents, pos, from),
    decreases from,
{
    if from > 0 {
        lemma_first_after(extents, pos, from - 1);
        assert(extents[from - 1].end() <= pos);
    }
}

proof fn lemma_first_after_passes(extents: Seq<Extent>, pos: int, from: int)
    requires
        0 <= from <= extents.len(),
        forall|i: int| 0 <= i < from ==> (#[trigger] extents[i]).end() <= pos,
    ensures
        from <= first_after(extents, pos, from) <= extents.len(),
        forall|i: int| 0 <= i < first_after(extents, pos, from) ==> (#[trigger] extents[i]).end() <= pos,
        first_after(extents, pos, from) < extents.len() ==> extents[first_after(extents, pos, from)].end() > pos,
    decreases extents.len() - from,
{
    if from < extents.len() && extents[from].end() <= pos {
        lemma_first_after_passes(extents, pos, from + 1);
    }
}

/// A run is as the map says, byte for byte, and never empty where something is asked for.
pub proof fn law_runs_follow_the_map(extents: Seq<Extent>, size: int, pos: int, len: int)
    requires
        in_order(extents, size),
        0 <= pos,
        0 < len,
    ensures
        0 < run_at(extents, pos, len).1 <= len,
        forall|p: int|
            pos <= p < pos + run_at(extents, pos, len).1 ==> any_holds(extents, p) == run_at(extents, pos, len).0,
{
    let i = first_after(extents, pos, 0);
    lemma_first_after_passes(extents, pos, 0);
    let (data, n) = run_at(extents, pos, len);
    assert forall|p: int| pos <= p < pos + n implies any_holds(extents, p) == data by {
        if data {
            assert(extents[i].holds(p));
        } else if any_holds(extents, p) {
            let j = choose|j: int| 0 <= j < extents.len() && (#[trigger] extents[j]).holds(p);
            if j < i {
                assert(extents[j].end() <= pos);
            } else if j > i {
                assert(extents[i].end() <= extents[j].start);
            }
            assert(false);
        }
    }
}

/// Walks the output of a restore through the map.
pub struct Cursor<'a> {
    pub extents: &'a [Extent],
    pub next: usize,
}

impl<'a> Cursor<'a> {
    /// The map is in order, and what the cursor has passed lies before `pos`.
    pub open spec fn wf(&self, pos: int) -> bool {
        &&& in_order(self.extents@, u64::MAX as int)
        &&& self.next <= self.extents@.len()
        &&& forall|i: int| 0 <= i < self.next ==> (#[trigger] self.extents@[i]).end() <= pos
    }

    pub fn new(map: &'a SpaceMap) -> (c: Cursor<'a>)
        requires
            map@.wf(),
        ensures
            c.wf(0),
            c.extents@ == map.extents@,
    {
        proof {
            assert forall|i: int| 0 <= i < map.extents@.len() implies (#[trigger] map.extents@[i]).end() <= u64::MAX by {
                assert(map@.extents[i].end() <= map.size);
            }
        }
        Cursor { extents: map.extents.as_slice(), next: 0 }
    }

    /// The run starting at `pos`, at most `len` long: (holds data, length). Positions only
    /// move forward.
    pub fn run(&mut self, pos: u64, len: u64) -> (r: (bool, u64))
        requires
            old(self).wf(pos as int),
        ensures
            final(self).wf(pos as int),
            final(self).extents == old(self).extents,
            (r.0, r.1 as int) == run_at(old(self).extents@, pos as int, len as int),
    {
        proof { lemma_first_after(self.extents@, pos as int, self.next as int); }
        while self.next < self.extents.len() && self.extents[self.next].start + self.extents[self.next].len <= pos
            invariant
                self.wf(pos as int),
                self.extents == old(self).extents,
                first_after(self.extents@, pos as int, 0) == first_after(self.extents@, pos as int, self.next as int),
                forall|i: int| 0 <= i < self.extents@.len() ==> (#[trigger] self.extents@[i]).end() <= u64::MAX,
            decreases self.extents@.len() - self.next,
        {
            self.next = self.next + 1;
        }
        if self.next < self.extents.len() {
            let e: Extent = self.extents[self.next];
            if e.start <= pos {
                let left: u64 = e.start + e.len - pos;
                (
                    true,
                    if len <= left {
                        len
                    } else {
                        left
                    },
                )
            } else {
                let left: u64 = e.start - pos;
                (
                    false,
                    if len <= left {
                        len
                    } else {
                        left
                    },
                )
            }
        } else {
            (false, len)
        }
    }

    /// Is all of `pos..pos + len` free space?
    pub fn is_free(&mut self, pos: u64, len: u64) -> (r: bool)
        requires
            old(self).wf(pos as int),
        ensures
            final(self).wf(pos as int),
            final(self).extents == old(self).extents,
            r == (run_at(old(self).extents@, pos as int, len as int) == (false, len as int)),
    {
        let (data, n): (bool, u64) = self.run(pos, len);
        !data && n == len
    }
}

/// What a cursor calls free, the map has nothing in; and all that the map has nothing in,
/// a cursor calls free.
pub proof fn law_free_is_free(extents: Seq<Extent>, size: int, pos: int, len: int)
    requires
        in_order(extents, size),
        none_empty(extents),
        0 <= pos,
        0 < len,
    ensures
        run_at(extents, pos, len) == (false, len) <==> forall|p: int| pos <= p < pos + len ==> !any_holds(extents, p),
{
    law_runs_follow_the_map(extents, size, pos, len);
    lemma_first_after_passes(extents, pos, 0);
    let i = first_after(extents, pos, 0);
    let (data, n) = run_at(extents, pos, len);
    if forall|p: int| pos <= p < pos + len ==> !any_holds(extents, p) {
        assert(!any_holds(extents, pos));
        if n < len {
            let e = extents[i];
            assert(e.start == pos + n);
            assert(e.holds(pos + n));
            assert(any_holds(extents, pos + n));
        }
    }
}

} // verus!
