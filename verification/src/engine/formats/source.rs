//! Reading an image file: which bytes a read gets, changes that only live in memory, and
//! the helpers that every format uses (errors, byte order, checksums).

use vstd::prelude::*;
use vstd::string::*;
use crate::error::{Error, Fault, Kind};
use crate::text::push_decimal;

verus! {

/// Damaged or unexpected data.
pub fn bad(what: &str) -> (e: Error)
    ensures
        e@ == crate::error::bad_fault(what@),
{
    Error { kind: Kind::InvalidData, what: what.to_owned() }
}

/// A variant of a format that is not handled.
pub fn unsupported(what: &str) -> (e: Error)
    ensures
        e@ == crate::error::unsupported_fault(what@),
{
    Error { kind: Kind::Unsupported, what: what.to_owned() }
}

/// The sentence about a file of `size` bytes in which a read needs bytes up to `needed`.
pub open spec fn truncated_text(size: nat, needed: nat) -> Seq<char> {
    "the image is cut short: the file ends at byte "@ + crate::text::decimal(size)
        + ", but data up to byte "@ + crate::text::decimal(needed) + " is needed"@
}

pub fn truncated(size: u64, needed: u64) -> (e: Error)
    ensures
        e@ == crate::error::bad_fault(truncated_text(size as nat, needed as nat)),
{
    let mut s: String = "the image is cut short: the file ends at byte ".to_owned();
    push_decimal(&mut s, size);
    s.append(", but data up to byte ");
    push_decimal(&mut s, needed);
    s.append(" is needed");
    Error { kind: Kind::InvalidData, what: s }
}

/// Does `p` stand in `b` at `at`?
pub open spec fn holds(b: Seq<u8>, at: int, p: Seq<u8>) -> bool {
    0 <= at && at + p.len() <= b.len() && b.subrange(at, at + p.len()) == p
}

pub fn has_bytes(b: &[u8], at: usize, p: &[u8]) -> (r: bool)
    ensures
        r == holds(b@, at as int, p@),
{
    if at > b.len() || p.len() > b.len() - at {
        return false;
    }
    let mut i: usize = 0;
    while i < p.len()
        invariant
            i <= p.len(),
            at + p.len() <= b.len(),
            forall|k: int| 0 <= k < i ==> b@[at + k] == #[trigger] p@[k],
        decreases p.len() - i,
    {
        if b[at + i] != p[i] {
            proof { assert(b@.subrange(at as int, at + p@.len())[i as int] == b@[at + i]); }
            return false;
        }
        i = i + 1;
    }
    proof { assert(b@.subrange(at as int, at + p@.len()) == p@); }
    true
}

/// A copy of part of some bytes.
pub fn bytes_at(b: &[u8], at: usize, n: usize) -> (v: Vec<u8>)
    requires
        at + n <= b.len(),
    ensures
        v@ == b@.subrange(at as int, at + n),
{
    vstd::slice::slice_to_vec(vstd::slice::slice_subrange(b, at, at + n))
}

/// Appends `p`.
pub fn push_bytes(out: &mut Vec<u8>, p: &[u8])
    ensures
        final(out)@ == old(out)@ + p@,
{
    let mut i: usize = 0;
    while i < p.len()
        invariant
            i <= p.len(),
            out@ == old(out)@ + p@.take(i as int),
        decreases p.len() - i,
    {
        out.push(p[i]);
        proof {
            assert(p@.take(i + 1) == p@.take(i as int).push(p@[i as int]));
        }
        i = i + 1;
    }
    proof { assert(p@.take(p@.len() as int) == p@); }
}

// Fixed-size fields. The callers check lengths first; out-of-range reads give zero.

/// Is there a field of `n` bytes at `at`?
pub open spec fn has(b: Seq<u8>, at: int, n: int) -> bool {
    0 <= at && at + n <= b.len()
}

pub open spec fn be16_at(b: Seq<u8>, at: int) -> u16 {
    if has(b, at, 2) {
        (b[at] * 0x100 + b[at + 1]) as u16
    } else {
        0
    }
}

pub open spec fn be32_at(b: Seq<u8>, at: int) -> u32 {
    if has(b, at, 4) {
        (b[at] * 0x100_0000 + b[at + 1] * 0x1_0000 + b[at + 2] * 0x100 + b[at + 3]) as u32
    } else {
        0
    }
}

pub open spec fn be64_at(b: Seq<u8>, at: int) -> u64 {
    if has(b, at, 8) {
        (be32_at(b, at) * 0x1_0000_0000 + be32_at(b, at + 4)) as u64
    } else {
        0
    }
}

pub open spec fn le16_at(b: Seq<u8>, at: int) -> u16 {
    if has(b, at, 2) {
        (b[at + 1] * 0x100 + b[at]) as u16
    } else {
        0
    }
}

pub open spec fn le32_at(b: Seq<u8>, at: int) -> u32 {
    if has(b, at, 4) {
        (b[at + 3] * 0x100_0000 + b[at + 2] * 0x1_0000 + b[at + 1] * 0x100 + b[at]) as u32
    } else {
        0
    }
}

pub open spec fn le64_at(b: Seq<u8>, at: int) -> u64 {
    if has(b, at, 8) {
        (le32_at(b, at + 4) * 0x1_0000_0000 + le32_at(b, at)) as u64
    } else {
        0
    }
}

pub fn be16(b: &[u8], at: usize) -> (v: u16)
    ensures
        v == be16_at(b@, at as int),
{
    if at <= b.len() && b.len() - at >= 2 {
        b[at] as u16 * 0x100 + b[at + 1] as u16
    } else {
        0
    }
}

pub fn be32(b: &[u8], at: usize) -> (v: u32)
    ensures
        v == be32_at(b@, at as int),
{
    if at <= b.len() && b.len() - at >= 4 {
        b[at] as u32 * 0x100_0000 + b[at + 1] as u32 * 0x1_0000 + b[at + 2] as u32 * 0x100 + b[at
            + 3] as u32
    } else {
        0
    }
}

pub fn be64(b: &[u8], at: usize) -> (v: u64)
    ensures
        v == be64_at(b@, at as int),
{
    if at <= b.len() && b.len() - at >= 8 {
        be32(b, at) as u64 * 0x1_0000_0000 + be32(b, at + 4) as u64
    } else {
        0
    }
}

pub fn le16(b: &[u8], at: usize) -> (v: u16)
    ensures
        v == le16_at(b@, at as int),
{
    if at <= b.len() && b.len() - at >= 2 {
        b[at + 1] as u16 * 0x100 + b[at] as u16
    } else {
        0
    }
}

pub fn le32(b: &[u8], at: usize) -> (v: u32)
    ensures
        v == le32_at(b@, at as int),
{
    if at <= b.len() && b.len() - at >= 4 {
        b[at + 3] as u32 * 0x100_0000 + b[at + 2] as u32 * 0x1_0000 + b[at + 1] as u32 * 0x100 + b[at] as u32
    } else {
        0
    }
}

pub fn le64(b: &[u8], at: usize) -> (v: u64)
    ensures
        v == le64_at(b@, at as int),
{
    if at <= b.len() && b.len() - at >= 8 {
        le32(b, at + 4) as u64 * 0x1_0000_0000 + le32(b, at) as u64
    } else {
        0
    }
}

/// The four bytes of `v`, the low one first.
pub open spec fn le32_bytes(v: u32) -> Seq<u8> {
    seq![
        (v % 0x100) as u8,
        (v / 0x100 % 0x100) as u8,
        (v / 0x1_0000 % 0x100) as u8,
        (v / 0x100_0000) as u8,
    ]
}

/// Appends `v`, the low byte first.
pub fn push_le32(out: &mut Vec<u8>, v: u32)
    ensures
        final(out)@ == old(out)@ + le32_bytes(v),
{
    out.push((v % 0x100) as u8);
    out.push((v / 0x100 % 0x100) as u8);
    out.push((v / 0x1_0000 % 0x100) as u8);
    out.push((v / 0x100_0000) as u8);
}

/// A number written low byte first reads back as the number.
pub proof fn law_le32_round_trip(b: Seq<u8>, at: int, v: u32)
    requires
        has(b, at, 4),
        b.subrange(at, at + 4) == le32_bytes(v),
    ensures
        le32_at(b, at) == v,
{
    let s = b.subrange(at, at + 4);
    assert(s[0] == b[at] && s[1] == b[at + 1] && s[2] == b[at + 2] && s[3] == b[at + 3]);
}

// CRC-32C (Castagnoli), as VHDX uses it.

/// One bit of the division by the CRC-32C polynomial.
pub open spec fn crc32c_bit(c: u32) -> u32 {
    if c & 1 != 0 {
        (c >> 1) ^ 0x82f6_3b78
    } else {
        c >> 1
    }
}

/// `n` bits of it.
pub open spec fn crc32c_bits(c: u32, n: nat) -> u32
    decreases n,
{
    if n == 0 {
        c
    } else {
        crc32c_bit(crc32c_bits(c, (n - 1) as nat))
    }
}

/// The remainder after the bytes of `data`, from a remainder `c`.
pub open spec fn crc32c_rest(c: u32, data: Seq<u8>) -> u32
    decreases data.len(),
{
    if data.len() == 0 {
        c
    } else {
        crc32c_bits(crc32c_rest(c, data.drop_last()) ^ (data.last() as u32), 8)
    }
}

/// CRC-32C of `data`, going on from the CRC of what came before it (0 at the start).
pub open spec fn crc32c_of(crc: u32, data: Seq<u8>) -> u32 {
    !crc32c_rest(!crc, data)
}

/// CRC-32C (Castagnoli), as VHDX uses it.
pub fn crc32c(crc: u32, data: &[u8]) -> (r: u32)
    ensures
        r == crc32c_of(crc, data@),
{
    let mut c: u32 = !crc;
    let mut i: usize = 0;
    while i < data.len()
        invariant
            i <= data.len(),
            c == crc32c_rest(!crc, data@.take(i as int)),
        decreases data.len() - i,
    {
        let ghost before = c ^ (data@[i as int] as u32);
        c = c ^ (data[i] as u32);
        let mut k: usize = 0;
        while k < 8
            invariant
                k <= 8,
                c == crc32c_bits(before, k as nat),
            decreases 8 - k,
        {
            c = if c & 1 != 0 {
                (c >> 1) ^ 0x82f6_3b78
            } else {
                c >> 1
            };
            k = k + 1;
        }
        proof {
            assert(data@.take(i + 1).drop_last() == data@.take(i as int));
        }
        i = i + 1;
    }
    proof { assert(data@.take(data@.len() as int) == data@); }
    !c
}

proof fn lemma_crc32c_rest_concat(c: u32, a: Seq<u8>, b: Seq<u8>)
    ensures
        crc32c_rest(c, a + b) == crc32c_rest(crc32c_rest(c, a), b),
    decreases b.len(),
{
    if b.len() == 0 {
        assert(a + b == a);
    } else {
        assert((a + b).drop_last() == a + b.drop_last());
        lemma_crc32c_rest_concat(c, a, b.drop_last());
    }
}

/// The CRC of data in two parts: the CRC of the second, going on from that of the first.
pub proof fn law_crc32c_in_parts(crc: u32, a: Seq<u8>, b: Seq<u8>)
    ensures
        crc32c_of(crc32c_of(crc, a), b) == crc32c_of(crc, a + b),
{
    lemma_crc32c_rest_concat(!crc, a, b);
    let x = crc32c_rest(!crc, a);
    assert(!!x == x) by (bit_vector);
}

// CRC-32, as gzip, DMG and bzip2 tools use it.

/// One bit of the division by the CRC-32 polynomial.
pub open spec fn crc32_bit(c: u32) -> u32 {
    if c & 1 != 0 {
        (c >> 1) ^ 0xedb8_8320
    } else {
        c >> 1
    }
}

/// `n` bits of it.
pub open spec fn crc32_bits(c: u32, n: nat) -> u32
    decreases n,
{
    if n == 0 {
        c
    } else {
        crc32_bit(crc32_bits(c, (n - 1) as nat))
    }
}

/// The remainder after the bytes of `data`, from a remainder `c`.
pub open spec fn crc32_rest(c: u32, data: Seq<u8>) -> u32
    decreases data.len(),
{
    if data.len() == 0 {
        c
    } else {
        crc32_bits(crc32_rest(c, data.drop_last()) ^ (data.last() as u32), 8)
    }
}

/// CRC-32 of `data`, going on from the CRC of what came before it (0 at the start).
pub open spec fn crc32_of(crc: u32, data: Seq<u8>) -> u32 {
    !crc32_rest(!crc, data)
}

/// CRC-32 of `data`, going on from the CRC of what came before it.
pub fn crc32(crc: u32, data: &[u8]) -> (r: u32)
    ensures
        r == crc32_of(crc, data@),
{
    let mut c: u32 = !crc;
    let mut i: usize = 0;
    while i < data.len()
        invariant
            i <= data.len(),
            c == crc32_rest(!crc, data@.take(i as int)),
        decreases data.len() - i,
    {
        let ghost before = c ^ (data@[i as int] as u32);
        c = c ^ (data[i] as u32);
        let mut k: usize = 0;
        while k < 8
            invariant
                k <= 8,
                c == crc32_bits(before, k as nat),
            decreases 8 - k,
        {
            c = if c & 1 != 0 {
                (c >> 1) ^ 0xedb8_8320
            } else {
                c >> 1
            };
            k = k + 1;
        }
        proof {
            assert(data@.take(i + 1).drop_last() == data@.take(i as int));
        }
        i = i + 1;
    }
    proof { assert(data@.take(data@.len() as int) == data@); }
    !c
}

proof fn lemma_crc32_rest_concat(c: u32, a: Seq<u8>, b: Seq<u8>)
    ensures
        crc32_rest(c, a + b) == crc32_rest(crc32_rest(c, a), b),
    decreases b.len(),
{
    if b.len() == 0 {
        assert(a + b == a);
    } else {
        assert((a + b).drop_last() == a + b.drop_last());
        lemma_crc32_rest_concat(c, a, b.drop_last());
    }
}

/// The CRC-32 of data in two parts: that of the second, going on from that of the first.
pub proof fn law_crc32_in_parts(crc: u32, a: Seq<u8>, b: Seq<u8>)
    ensures
        crc32_of(crc32_of(crc, a), b) == crc32_of(crc, a + b),
{
    lemma_crc32_rest_concat(!crc, a, b);
    let x = crc32_rest(!crc, a);
    assert(!!x == x) by (bit_vector);
}

/// Does `p` stand somewhere in `b`?
pub open spec fn contains(b: Seq<u8>, p: Seq<u8>) -> bool {
    exists|at: int| holds(b, at, p)
}

pub fn contains_bytes(b: &[u8], p: &[u8]) -> (r: bool)
    ensures
        r == contains(b@, p@),
{
    let mut i: usize = 0;
    while i < b.len()
        invariant
            i <= b.len(),
            forall|k: int| 0 <= k < i ==> !holds(b@, k, p@),
        decreases b.len() - i,
    {
        if has_bytes(b, i, p) {
            return true;
        }
        i = i + 1;
    }
    has_bytes(b, i, p)
}

/// `n` times 512, or as much as fits.
pub open spec fn sector_bytes(n: u64) -> u64 {
    if n * 512 > u64::MAX {
        u64::MAX
    } else {
        (n * 512) as u64
    }
}

/// `n` sectors of 512 bytes, or as much as fits.
pub fn sectors(n: u64) -> (r: u64)
    ensures
        r == sector_bytes(n),
{
    match n.checked_mul(512) {
        Some(b) => b,
        None => u64::MAX,
    }
}

/// A change to a file's contents that only lives in memory.
pub struct Patch {
    pub offset: u64,
    pub len: u64,
    /// None: zeros.
    pub data: Option<Vec<u8>>,
}

/// What a `Patch` says.
#[verifier::ext_equal]
pub ghost struct Change {
    pub offset: u64,
    pub len: u64,
    pub data: Option<Seq<u8>>,
}

impl View for Patch {
    type V = Change;

    open spec fn view(&self) -> Change {
        Change {
            offset: self.offset,
            len: self.len,
            data: match self.data {
                Some(d) => Some(d@),
                None => None,
            },
        }
    }
}

impl Change {
    /// The data is as long as the change says, and its end can be counted.
    pub open spec fn wf(self) -> bool {
        &&& self.offset + self.len <= u64::MAX
        &&& self.data matches Some(d) ==> d.len() == self.len
    }

    pub open spec fn covers(self, pos: int) -> bool {
        self.offset <= pos < self.offset + self.len
    }

    /// The byte it puts at `pos`.
    pub open spec fn byte(self, pos: int) -> u8 {
        match self.data {
            Some(d) => d[pos - self.offset],
            None => 0,
        }
    }
}

/// The changes of some patches.
pub open spec fn changes(patches: Seq<Patch>) -> Seq<Change> {
    patches.map_values(|p: Patch| p@)
}

/// The byte at `pos` once `patches` were applied in order over `under`.
/// `n` in `len` bytes, the low one first.
pub open spec fn little(n: nat, len: nat) -> Seq<u8>
    decreases len,
{
    if len == 0 {
        Seq::empty()
    } else {
        seq![(n % 0x100) as u8] + little(n / 0x100, (len - 1) as nat)
    }
}

/// `n` in `len` bytes, the high one first.
pub open spec fn big(n: nat, len: nat) -> Seq<u8>
    decreases len,
{
    if len == 0 {
        Seq::empty()
    } else {
        big(n / 0x100, (len - 1) as nat).push((n % 0x100) as u8)
    }
}

/// Numbers that are written low byte first, in two, four or eight bytes, read back as they are.
pub proof fn law_little_fields_read_back(b: Seq<u8>, at: int, n: nat)
    requires
        0 <= at,
    ensures
        at + 2 <= b.len() && b.subrange(at, at + 2) == little(n, 2) && n < 0x1_0000 ==> le16_at(b, at) == n,
        at + 4 <= b.len() && b.subrange(at, at + 4) == little(n, 4) && n < 0x1_0000_0000 ==> le32_at(b, at) == n,
        at + 8 <= b.len() && b.subrange(at, at + 8) == little(n, 8) && n <= u64::MAX ==> le64_at(b, at) == n,
{
    reveal_with_fuel(little, 9);
    if at + 2 <= b.len() {
        let s = b.subrange(at, at + 2);
        assert(s[0] == b[at] && s[1] == b[at + 1]);
    }
    if at + 4 <= b.len() {
        let s = b.subrange(at, at + 4);
        assert(s[0] == b[at] && s[1] == b[at + 1] && s[2] == b[at + 2] && s[3] == b[at + 3]);
    }
    if at + 8 <= b.len() {
        let s = b.subrange(at, at + 8);
        assert(s[0] == b[at] && s[1] == b[at + 1] && s[2] == b[at + 2] && s[3] == b[at + 3]);
        assert(s[4] == b[at + 4] && s[5] == b[at + 5] && s[6] == b[at + 6] && s[7] == b[at + 7]);
    }
}

/// Numbers that are written high byte first, in two, four or eight bytes, read back as they are.
pub proof fn law_big_fields_read_back(b: Seq<u8>, at: int, n: nat)
    requires
        0 <= at,
    ensures
        at + 2 <= b.len() && b.subrange(at, at + 2) == big(n, 2) && n < 0x1_0000 ==> be16_at(b, at) == n,
        at + 4 <= b.len() && b.subrange(at, at + 4) == big(n, 4) && n < 0x1_0000_0000 ==> be32_at(b, at) == n,
        at + 8 <= b.len() && b.subrange(at, at + 8) == big(n, 8) && n <= u64::MAX ==> be64_at(b, at) == n,
{
    reveal_with_fuel(big, 9);
    if at + 2 <= b.len() {
        let s = b.subrange(at, at + 2);
        assert(s[0] == b[at] && s[1] == b[at + 1]);
    }
    if at + 4 <= b.len() {
        let s = b.subrange(at, at + 4);
        assert(s[0] == b[at] && s[1] == b[at + 1] && s[2] == b[at + 2] && s[3] == b[at + 3]);
    }
    if at + 8 <= b.len() {
        let s = b.subrange(at, at + 8);
        assert(s[0] == b[at] && s[1] == b[at + 1] && s[2] == b[at + 2] && s[3] == b[at + 3]);
        assert(s[4] == b[at + 4] && s[5] == b[at + 5] && s[6] == b[at + 6] && s[7] == b[at + 7]);
    }
}

/// The number in some bytes, the high one first.
pub open spec fn be_value(b: Seq<u8>) -> nat
    decreases b.len(),
{
    if b.len() == 0 {
        0
    } else {
        be_value(b.drop_last()) * 0x100 + b.last() as nat
    }
}

/// The number in some bytes, the low one first.
pub open spec fn le_value(b: Seq<u8>) -> nat
    decreases b.len(),
{
    if b.len() == 0 {
        0
    } else {
        b[0] as nat + le_value(b.skip(1)) * 0x100
    }
}

/// A field is the number that its bytes make.
pub proof fn law_fields_are_numbers(b: Seq<u8>, at: int)
    requires
        0 <= at,
    ensures
        at + 2 <= b.len() ==> be16_at(b, at) == be_value(b.subrange(at, at + 2)),
        at + 4 <= b.len() ==> be32_at(b, at) == be_value(b.subrange(at, at + 4)),
        at + 8 <= b.len() ==> be64_at(b, at) == be_value(b.subrange(at, at + 8)),
        at + 2 <= b.len() ==> le16_at(b, at) == le_value(b.subrange(at, at + 2)),
        at + 4 <= b.len() ==> le32_at(b, at) == le_value(b.subrange(at, at + 4)),
        at + 8 <= b.len() ==> le64_at(b, at) == le_value(b.subrange(at, at + 8)),
{
    reveal_with_fuel(be_value, 9);
    reveal_with_fuel(le_value, 9);
}

pub open spec fn patched_byte(patches: Seq<Change>, under: u8, pos: int) -> u8
    decreases patches.len(),
{
    if patches.len() == 0 {
        under
    } else if patches.last().covers(pos) {
        patches.last().byte(pos)
    } else {
        patched_byte(patches.drop_last(), under, pos)
    }
}

/// An image file as its readers see it: the file, and changes on top of it.
pub struct Source {
    /// Size of the file.
    pub size: u64,
    /// Changes to apply on top of the file (a VHDX log replayed in memory), in order.
    pub patches: Vec<Patch>,
    /// Reads up to here (past the end of the file) give zeros (a replayed log may have
    /// grown the file).
    pub virtual_end: u64,
}

/// What a `Source` says.
#[verifier::ext_equal]
pub ghost struct Layers {
    pub size: u64,
    pub patches: Seq<Change>,
    pub end: u64,
}

impl View for Source {
    type V = Layers;

    open spec fn view(&self) -> Layers {
        Layers { size: self.size, patches: changes(self.patches@), end: self.virtual_end }
    }
}

/// A file of `size` bytes as it is.
pub open spec fn plain(size: u64) -> Layers {
    Layers { size, patches: Seq::empty(), end: size }
}

impl Layers {
    pub open spec fn wf(self) -> bool {
        &&& self.size <= self.end
        &&& forall|i: int| 0 <= i < self.patches.len() ==> (#[trigger] self.patches[i]).wf()
    }

    /// The same file with other changes on top, which may have grown it.
    pub open spec fn with(self, patches: Seq<Change>, end: u64) -> Layers {
        Layers {
            size: self.size,
            patches,
            end: if end >= self.size {
                end
            } else {
                self.size
            },
        }
    }

    /// What a reader sees at `pos`, over a file that holds `file`.
    pub open spec fn seen(self, file: Seq<u8>, pos: int) -> u8 {
        patched_byte(
            self.patches,
            if 0 <= pos < file.len() {
                file[pos]
            } else {
                0
            },
            pos,
        )
    }

    /// Why `len` bytes from `offset` cannot be read, if so.
    pub open spec fn refusal(self, offset: u64, len: nat) -> Option<Fault> {
        if offset + len > u64::MAX {
            Some(crate::error::bad_fault("an offset is out of range"@))
        } else if offset + len > self.end {
            Some(crate::error::bad_fault(truncated_text(self.size as nat, (offset + len) as nat)))
        } else {
            None
        }
    }

    /// What a reader sees from `offset` on.
    pub open spec fn bytes(self, file: Seq<u8>, offset: u64, len: nat) -> Seq<u8> {
        Seq::new(len, |i: int| self.seen(file, offset + i))
    }

    /// What a read of `len` bytes from `offset` gives.
    pub open spec fn read(self, file: Seq<u8>, offset: u64, len: nat) -> Result<Seq<u8>, Fault> {
        match self.refusal(offset, len) {
            Some(f) => Err(f),
            None => Ok(self.bytes(file, offset, len)),
        }
    }

    /// What a read of up to `len` bytes from `offset` gives: fewer where the image ends.
    pub open spec fn read_upto(self, file: Seq<u8>, offset: u64, len: nat) -> Result<Seq<u8>, Fault> {
        self.read(file, offset, self.available(offset, len))
    }

    /// How many of `len` bytes from `offset` the file itself holds.
    pub open spec fn stored(self, offset: u64, len: nat) -> nat {
        if offset >= self.size {
            0
        } else if self.size - offset <= len {
            (self.size - offset) as nat
        } else {
            len
        }
    }

    /// How many bytes a read of up to `len` from `offset` gets.
    pub open spec fn available(self, offset: u64, len: nat) -> nat {
        if offset >= self.end {
            0
        } else if self.end - offset <= len {
            (self.end - offset) as nat
        } else {
            len
        }
    }
}

/// A part of the file that was read: its bytes from `offset` on.
pub struct Window {
    pub offset: u64,
    pub data: Vec<u8>,
}

impl Window {
    pub open spec fn covers(&self, offset: int, len: int) -> bool {
        self.offset <= offset && offset + len <= self.offset + self.data@.len()
    }

    /// Is this what `file` holds there?
    pub open spec fn shows(&self, file: Seq<u8>) -> bool {
        forall|i: int|
            0 <= i < self.data@.len() && self.offset + i < file.len() ==> #[trigger] self.data@[i]
                == file[self.offset + i]
    }
}

/// The parts of the image file that were read so far.
pub struct Loaded {
    pub windows: Vec<Window>,
}

/// Why a step that reads the image stops.
#[derive(Debug)]
pub enum Stop {
    /// It needs this part of the file first.
    Need { offset: u64, len: usize },
    Failed(Error),
}

impl Loaded {
    /// Do the parts hold what `file`, of the source's size, holds there?
    pub open spec fn shows(&self, src: Layers, file: Seq<u8>) -> bool {
        &&& file.len() == src.size
        &&& forall|i: int| 0 <= i < self.windows@.len() ==> (#[trigger] self.windows@[i]).shows(file)
    }

    /// Is `len` bytes at `offset` a part of the file of which no loaded part has all?
    pub open spec fn lacks(&self, src: Layers, offset: u64, len: usize) -> bool {
        &&& 0 < len
        &&& offset + len <= src.size
        &&& forall|i: int|
            0 <= i < self.windows@.len() ==> !(#[trigger] self.windows@[i]).covers(
                offset as int,
                len as int,
            )
    }

    pub fn new() -> (l: Loaded)
        ensures
            l.windows@.len() == 0,
    {
        Loaded { windows: Vec::new() }
    }

    /// All of a file at once.
    pub fn whole(file: Vec<u8>) -> (l: Loaded)
        ensures
            l.windows@.len() == 1,
            l.windows@[0].offset == 0,
            l.windows@[0].data@ == file@,
    {
        let mut windows: Vec<Window> = Vec::new();
        windows.push(Window { offset: 0, data: file });
        Loaded { windows }
    }

    /// Adds a part: `data` from `offset` on.
    pub fn put(&mut self, offset: u64, data: Vec<u8>)
        ensures
            final(self).windows@.len() == old(self).windows@.len() + 1,
            final(self).windows@.drop_last() == old(self).windows@,
            final(self).windows@.last().offset == offset,
            final(self).windows@.last().data@ == data@,
    {
        self.windows.push(Window { offset, data });
        proof {
            assert(self.windows@.drop_last() == old(self).windows@);
        }
    }

    /// The `len` bytes at `offset`, where a part has them all.
    pub fn get(&self, offset: u64, len: usize) -> (r: Option<Vec<u8>>)
        ensures
            match r {
                Some(v) => {
                    &&& v@.len() == len
                    &&& forall|src: Layers, file: Seq<u8>| #[trigger]
                        self.shows(src, file) && offset + len <= src.size ==> v@ == file.subrange(
                            offset as int,
                            offset + len,
                        )
                },
                None => forall|i: int|
                    0 <= i < self.windows@.len() ==> !(#[trigger] self.windows@[i]).covers(
                        offset as int,
                        len as int,
                    ),
            },
    {
        let mut i: usize = 0;
        while i < self.windows.len()
            invariant
                i <= self.windows@.len(),
                forall|k: int|
                    0 <= k < i ==> !(#[trigger] self.windows@[k]).covers(offset as int, len as int),
            decreases self.windows@.len() - i,
        {
            let w: &Window = &self.windows[i];
            if w.offset <= offset && offset - w.offset <= w.data.len() as u64 && len as u64 <= w.data.len()
                as u64 - (offset - w.offset) {
                let at: usize = (offset - w.offset) as usize;
                let v: Vec<u8> = vstd::slice::slice_to_vec(
                    vstd::slice::slice_subrange(w.data.as_slice(), at, at + len),
                );
                proof {
                    assert forall|src: Layers, file: Seq<u8>| #[trigger]
                        self.shows(src, file) && offset + len <= src.size implies v@
                        == file.subrange(offset as int, offset + len) by {
                        assert(self.windows@[i as int].shows(file));
                        assert forall|k: int| 0 <= k < len implies v@[k] == file[offset + k] by {
                            assert(v@[k] == w.data@[at + k]);
                        }
                    }
                }
                return Some(v);
            }
            i = i + 1;
        }
        None
    }
}

/// With all of a file loaded, nothing is lacking.
pub proof fn law_whole_file_lacks_nothing(have: Loaded, file: Seq<u8>, src: Layers)
    requires
        have.windows@.len() == 1,
        have.windows@[0].offset == 0,
        have.windows@[0].data@ == file,
        src.size == file.len(),
    ensures
        have.shows(src, file),
        forall|offset: u64, len: usize| !#[trigger] have.lacks(src, offset, len),
{
    assert forall|offset: u64, len: usize| !#[trigger] have.lacks(src, offset, len) by {
        if have.lacks(src, offset, len) {
            assert(have.windows@[0].covers(offset as int, len as int));
        }
    }
}

/// Once a part that was lacking is put in, it is not lacking any more.
pub proof fn law_put_parts_are_there(before: Loaded, after: Loaded, src: Layers, offset: u64, len: usize)
    requires
        after.windows@.len() > 0,
        after.windows@.drop_last() == before.windows@,
        after.windows@.last().offset == offset,
        after.windows@.last().data@.len() == len,
    ensures
        !after.lacks(src, offset, len),
        forall|o: u64, l: usize| #[trigger] after.lacks(src, o, l) ==> before.lacks(src, o, l),
{
    assert(after.windows@[after.windows@.len() - 1].covers(offset as int, len as int));
    assert forall|o: u64, l: usize| #[trigger] after.lacks(src, o, l) implies before.lacks(src, o, l) by {
        assert forall|i: int| 0 <= i < before.windows@.len() implies !(#[trigger] before.windows@[i]).covers(
            o as int,
            l as int,
        ) by {
            assert(after.windows@[i] == after.windows@.drop_last()[i]);
        }
    }
}

impl Source {
    pub fn new(size: u64) -> (s: Source)
        ensures
            s@ == plain(size),
            s@.wf(),
    {
        let s: Source = Source { size, patches: Vec::new(), virtual_end: size };
        assert(changes(s.patches@) == Seq::<Change>::empty());
        s
    }

    pub fn set_patches(&mut self, patches: Vec<Patch>, virtual_end: u64)
        requires
            old(self)@.wf(),
            forall|i: int| 0 <= i < patches@.len() ==> (#[trigger] patches@[i])@.wf(),
        ensures
            final(self)@ == old(self)@.with(changes(patches@), virtual_end),
            final(self)@.wf(),
    {
        self.patches = patches;
        self.virtual_end = if virtual_end >= self.size {
            virtual_end
        } else {
            self.size
        };
    }

    /// How many of `len` bytes from `offset` the file itself holds. Reading past the end
    /// of the image is an error (it is cut short).
    pub fn in_file(&self, offset: u64, len: usize) -> (r: Result<usize, Error>)
        requires
            self@.wf(),
        ensures
            match r {
                Ok(n) => self@.refusal(offset, len as nat) is None && n == self@.stored(offset, len as nat),
                Err(e) => self@.refusal(offset, len as nat) == Some(e@),
            },
    {
        match offset.checked_add(len as u64) {
            None => Err(bad("an offset is out of range")),
            Some(end) => {
                if end > self.virtual_end {
                    return Err(truncated(self.size, end));
                }
                let left: u64 = self.size.saturating_sub(offset);
                if left <= len as u64 {
                    Ok(left as usize)
                } else {
                    Ok(len)
                }
            },
        }
    }

    /// What a read of `len` bytes from `offset` gives, when the file itself gave `raw` (the
    /// bytes from there to `len` or to its own end).
    pub fn apply(&self, raw: Vec<u8>, offset: u64, len: usize) -> (out: Vec<u8>)
        requires
            self@.wf(),
            raw@.len() <= len,
            offset + len <= u64::MAX,
        ensures
            out@.len() == len,
            forall|i: int| 0 <= i < len ==> #[trigger] out@[i] == patched_byte(
                self@.patches,
                if i < raw@.len() {
                    raw@[i]
                } else {
                    0
                },
                offset + i,
            ),
    {
        let mut out: Vec<u8> = raw;
        let ghost all = self@.patches;
        let ghost under = Seq::new(
            len as nat,
            |i: int|
                if i < raw@.len() {
                    raw@[i]
                } else {
                    0u8
                },
        );
        while out.len() < len
            invariant
                raw@.len() <= out@.len() <= len,
                under.len() == len,
                forall|i: int| 0 <= i < out@.len() ==> out@[i] == under[i],
                forall|i: int| raw@.len() <= i < len ==> under[i] == 0u8,
            decreases len - out@.len(),
        {
            out.push(0);
        }
        let mut p: usize = 0;
        proof {
            assert(all.take(0) == Seq::<Change>::empty());
        }
        while p < self.patches.len()
            invariant
                self@.wf(),
                all == self@.patches,
                p <= self.patches@.len(),
                out@.len() == len,
                under.len() == len,
                offset + len <= u64::MAX,
                forall|i: int|
                    0 <= i < len ==> #[trigger] out@[i] == patched_byte(
                        all.take(p as int),
                        under[i],
                        offset + i,
                    ),
            decreases self.patches@.len() - p,
        {
            let patch: &Patch = &self.patches[p];
            assert(patch@ == all[p as int] && all[p as int].wf());
            let start: u64 = if patch.offset >= offset {
                patch.offset
            } else {
                offset
            };
            let end: u64 = offset + len as u64;
            let patch_end: u64 = patch.offset + patch.len;
            let stop: u64 = if patch_end <= end {
                patch_end
            } else {
                end
            };
            let ghost before = out@;
            proof {
                assert(all.take(p + 1).drop_last() == all.take(p as int));
            }
            let mut pos: u64 = start;
            while pos < stop
                invariant
                    patch@.wf(),
                    start == (if patch.offset >= offset { patch.offset } else { offset }),
                    stop == (if patch.offset + patch.len <= offset + len {
                        patch.offset + patch.len
                    } else {
                        offset + len
                    }),
                    start <= pos,
                    pos <= stop || start >= stop,
                    start >= stop ==> pos == start,
                    offset + len <= u64::MAX,
                    out@.len() == len,
                    before.len() == len,
                    forall|i: int|
                        0 <= i < len ==> #[trigger] out@[i] == if start <= offset + i < pos {
                            patch@.byte(offset + i)
                        } else {
                            before[i]
                        },
                decreases stop - pos,
            {
                let b: u8 = match &patch.data {
                    Some(d) => {
                        assert(pos - patch.offset < d.len());
                        d[(pos - patch.offset) as usize]
                    },
                    None => 0,
                };
                out.set((pos - offset) as usize, b);
                pos = pos + 1;
            }
            proof {
                assert forall|i: int| 0 <= i < len implies #[trigger] out@[i] == patched_byte(
                    all.take(p + 1),
                    under[i],
                    offset + i,
                ) by {
                    assert(all.take(p + 1).last() == patch@);
                    assert(before[i] == patched_byte(all.take(p as int), under[i], offset + i));
                }
            }
            p = p + 1;
        }
        proof {
            assert(all.take(self.patches@.len() as int) == all);
        }
        out
    }

    /// Reads exactly `len` bytes at `offset`.
    pub fn read_vec(&self, have: &Loaded, offset: u64, len: usize) -> (r: Result<Vec<u8>, Stop>)
        requires
            self@.wf(),
        ensures
            match r {
                Ok(v) => forall|file: Seq<u8>| #[trigger]
                    have.shows(self@, file) ==> self@.read(file, offset, len as nat) == Ok::<
                        Seq<u8>,
                        Fault,
                    >(v@),
                Err(Stop::Failed(e)) => self@.refusal(offset, len as nat) == Some(e@),
                Err(Stop::Need { offset: o, len: n }) => {
                    &&& self@.refusal(offset, len as nat) is None
                    &&& have.lacks(self@, o, n)
                    &&& o == offset
                    &&& n == self@.stored(offset, len as nat)
                },
            },
            r matches Ok(v) ==> v@.len() == len && self@.refusal(offset, len as nat) is None,
    {
        let n: usize = match self.in_file(offset, len) {
            Ok(n) => n,
            Err(e) => {
                return Err(Stop::Failed(e));
            },
        };
        let raw: Vec<u8> = if n == 0 {
            Vec::new()
        } else {
            match have.get(offset, n) {
                Some(raw) => raw,
                None => {
                    return Err(Stop::Need { offset, len: n });
                },
            }
        };
        let ghost raw_bytes = raw@;
        let v: Vec<u8> = self.apply(raw, offset, len);
        proof {
            assert forall|file: Seq<u8>| #[trigger] have.shows(self@, file) implies self@.read(
                file,
                offset,
                len as nat,
            ) == Ok::<Seq<u8>, Fault>(v@) by {
                assert forall|i: int| 0 <= i < len implies v@[i] == self@.seen(file, offset + i) by {
                    if i < n {
                        assert(raw_bytes[i] == file[offset + i]);
                    }
                }
                assert(v@ == self@.bytes(file, offset, len as nat));
            }
        }
        Ok(v)
    }

    /// Up to `len` bytes from `offset`: fewer where the image ends.
    pub fn read_upto(&self, have: &Loaded, offset: u64, len: usize) -> (r: Result<Vec<u8>, Stop>)
        requires
            self@.wf(),
        ensures
            match r {
                Ok(v) => forall|file: Seq<u8>| #[trigger]
                    have.shows(self@, file) ==> self@.read_upto(file, offset, len as nat) == Ok::<
                        Seq<u8>,
                        Fault,
                    >(v@),
                Err(Stop::Failed(e)) => forall|file: Seq<u8>|
                    self@.read_upto(file, offset, len as nat) == Err::<Seq<u8>, Fault>(e@),
                Err(Stop::Need { offset: o, len: n }) => have.lacks(self@, o, n),
            },
            r matches Ok(v) ==> v@.len() == self@.available(offset, len as nat),
    {
        let n: usize = self.upto(offset, len);
        self.read_vec(have, offset, n)
    }

    /// How many bytes a read of up to `len` from `offset` gets: fewer where the image ends.
    pub fn upto(&self, offset: u64, len: usize) -> (n: usize)
        ensures
            n == self@.available(offset, len as nat),
    {
        let left: u64 = self.virtual_end.saturating_sub(offset);
        if left <= len as u64 {
            left as usize
        } else {
            len
        }
    }
}

/// Is `n` a power of two?
pub open spec fn power_of_two(n: nat) -> bool
    decreases n,
{
    n == 1 || (n > 1 && n % 2 == 0 && power_of_two(n / 2))
}

pub fn is_power_of_two(n: u64) -> (r: bool)
    ensures
        r == power_of_two(n as nat),
{
    let mut m: u64 = n;
    while m > 1
        invariant
            power_of_two(n as nat) == power_of_two(m as nat),
        decreases m,
    {
        if m % 2 != 0 {
            return false;
        }
        m = m / 2;
    }
    m == 1
}

// Sizes for messages.

/// What the last of the 53 leading bits of `n` is worth.
pub open spec fn precision(n: nat) -> nat
    decreases n,
{
    if n < 0x20_0000_0000_0000 {
        1
    } else {
        2 * precision(n / 2)
    }
}

/// `n / d`, rounded to the nearest whole number; from halfway, to the even one.
pub open spec fn nearest(n: nat, d: nat) -> nat {
    let low = n % d;
    if low * 2 > d || (low * 2 == d && n / d % 2 == 1) {
        n / d + 1
    } else {
        n / d
    }
}

/// `n` to the precision that sizes are shown in: 53 leading bits.
pub open spec fn shown(n: nat) -> nat {
    nearest(n, precision(n)) * precision(n)
}

/// What one of the units is worth.
pub open spec fn unit_bytes(unit: nat) -> nat
    decreases unit,
{
    if unit == 0 {
        1
    } else {
        1024 * unit_bytes((unit - 1) as nat)
    }
}

/// The biggest unit that `v` bytes are at least one of, from `unit` on.
pub open spec fn unit_for(v: nat, unit: nat) -> nat
    decreases 5 - unit,
{
    if unit < 5 && v >= unit_bytes(unit + 1) {
        unit_for(v, unit + 1)
    } else {
        unit
    }
}

pub open spec fn unit_name(unit: nat) -> Seq<char> {
    if unit == 0 {
        "bytes"@
    } else if unit == 1 {
        "KiB"@
    } else if unit == 2 {
        "MiB"@
    } else if unit == 3 {
        "GiB"@
    } else if unit == 4 {
        "TiB"@
    } else {
        "PiB"@
    }
}

/// A number of bytes in words: whole units without a fraction, others to a tenth.
pub open spec fn size_text_of(n: nat) -> Seq<char> {
    let v = shown(n);
    let unit = unit_for(v, 0);
    let d = unit_bytes(unit);
    if unit == 0 {
        crate::text::decimal(n) + " bytes"@
    } else if v % d == 0 {
        crate::text::decimal(v / d) + " "@ + unit_name(unit)
    } else {
        let tenths = nearest(v * 10, d);
        crate::text::decimal(tenths / 10) + "."@ + crate::text::decimal(tenths % 10) + " "@ + unit_name(unit)
    }
}

fn to_nearest(n: u128, d: u128) -> (r: u128)
    requires
        0 < d <= 0x1000_0000_0000_0000,
        n <= 0x1000_0000_0000_0000_0000,
    ensures
        r == nearest(n as nat, d as nat),
        r <= n + 1,
{
    let low: u128 = n % d;
    let q: u128 = n / d;
    proof {
        assert(q <= n) by (nonlinear_arith)
            requires
                q == n / d,
                d > 0,
        ;
        assert(low < d);
    }
    if low * 2 > d || (low * 2 == d && q % 2 == 1) {
        q + 1
    } else {
        q
    }
}

proof fn lemma_precision(n: nat)
    requires
        n < 0x1_0000_0000_0000_0000,
    ensures
        1 <= precision(n) <= 2048,
{
    reveal_with_fuel(precision, 13);
}

/// A number of bytes to the precision that sizes are shown in.
pub fn shown_bytes(n: u64) -> (v: u128)
    ensures
        v == shown(n as nat),
        v <= 0x2_0000_0000_0000_0000,
        n >= 1000 ==> v >= 1000,
{
    let mut step: u128 = 1;
    let mut m: u64 = n;
    proof { lemma_precision(n as nat); }
    while m >= 0x20_0000_0000_0000
        invariant
            1 <= step <= 2048,
            precision(n as nat) == step * precision(m as nat),
            precision(n as nat) <= 2048,
            precision(m as nat) >= 1,
            n < 0x20_0000_0000_0000 ==> m == n && step == 1,
        decreases m,
    {
        proof {
            lemma_precision((m / 2) as nat);
            let p = precision((m / 2) as nat);
            assert(step * (2 * p) == (step * 2) * p) by (nonlinear_arith);
            assert(step * 2 <= (step * 2) * p) by (nonlinear_arith)
                requires
                    p >= 1,
                    step >= 1,
            ;
        }
        m = m / 2;
        step = step * 2;
    }
    proof {
        let p = precision(m as nat);
        assert(p == 1);
        assert(step * p == step) by (nonlinear_arith)
            requires
                p == 1,
        ;
    }
    let q: u128 = to_nearest(n as u128, step);
    proof {
        assert(q * step <= n + 2048 && q * step <= 0x2_0000_0000_0000_0000) by (nonlinear_arith)
            requires
                q <= n / (step as u64) + 1,
                1 <= step <= 2048,
                n < 0x1_0000_0000_0000_0000,
        ;
    }
    proof {
        assert(q >= n / (step as u64));
        assert(n >= 0x20_0000_0000_0000 ==> q * step >= 1000) by (nonlinear_arith)
            requires
                q >= n / (step as u64),
                1 <= step <= 2048,
        ;
        assert(step == 1 ==> q * step == q) by (nonlinear_arith);
        assert(nearest(n as nat, 1) == n);
    }
    q * step
}

/// A number of bytes for messages: "4 GiB", "512 bytes".
pub fn size_text(n: u64) -> (s: String)
    ensures
        s@ == size_text_of(n as nat),
{
    let v: u128 = shown_bytes(n);
    let mut unit: u64 = 0;
    let mut d: u128 = 1;
    proof { reveal_with_fuel(unit_bytes, 7); }
    while unit < 5 && v >= d * 1024
        invariant
            unit <= 5,
            d == unit_bytes(unit as nat),
            d <= 0x4_0000_0000_0000,
            unit_for(v as nat, 0) == unit_for(v as nat, unit as nat),
        decreases 5 - unit,
    {
        d = d * 1024;
        unit = unit + 1;
        proof { reveal_with_fuel(unit_bytes, 7); }
    }
    assert(unit == unit_for(v as nat, 0));
    let mut s: String = String::new();
    if unit == 0 {
        push_decimal(&mut s, n);
        s.append(" bytes");
        return s;
    }
    proof {
        assert(d >= 1024) by { reveal_with_fuel(unit_bytes, 7); }
        assert(v / d <= v / 1024) by (nonlinear_arith)
            requires
                d >= 1024,
                v >= 0,
        ;
    }
    if v % d == 0 {
        push_decimal(&mut s, (v / d) as u64);
    } else {
        let tenths: u128 = to_nearest(v * 10, d);
        proof {
            assert((v * 10) / (d as int) <= (v * 10) / 1024) by (nonlinear_arith)
                requires
                    d >= 1024,
                    v >= 0,
            ;
        }
        push_decimal(&mut s, (tenths / 10) as u64);
        s.append(".");
        push_decimal(&mut s, (tenths % 10) as u64);
    }
    s.append(" ");
    s.append(if unit == 1 {
        "KiB"
    } else if unit == 2 {
        "MiB"
    } else if unit == 3 {
        "GiB"
    } else if unit == 4 {
        "TiB"
    } else {
        "PiB"
    });
    s
}

} // verus!
