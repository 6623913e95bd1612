//! tar archives (ustar, GNU, pax): the first regular file in them. Long names, pax headers
//! (including sizes past 8 GiB) and GNU base-256 sizes are understood, and so are sparse
//! files (old GNU sparse headers, and pax sparse formats 0.0, 0.1 and 1.0), whose holes come
//! out as zeros.

use vstd::arithmetic::power2::{lemma2_to64, lemma_pow2_adds, pow2};
use vstd::prelude::*;
use vstd::string::*;
use vstd::utf8::{decode_utf8, valid_utf8};
use crate::engine::formats::source::{bad, be_value, bytes_at, has_bytes, holds, push_bytes};
use crate::error::{bad_fault, Error, Fault, Kind};
use crate::smart::{end_of, in_order, none_empty, total, Extent};
use crate::text::{
    chars, decimal, find, find_from, from_utf8, lemma_find, parse_u64, parse_usize, part, push_decimal, same,
    trim, trimmed, u64_in, usize_in,
};

verus! {

pub const BLOCK: usize = 512;

/// The most that is read of a pax header or a GNU long name.
pub const MAX_META: u64 = 0x10_0000;

/// The most pieces a sparse map may have.
pub const MAX_SPARSE: usize = 0x10_0000;

/// "ustar": a header's magic.
pub const USTAR: [u8; 5] = [0x75, 0x73, 0x74, 0x61, 0x72];

/// "size".
pub const SIZE: [u8; 4] = [0x73, 0x69, 0x7a, 0x65];

/// "GNU.sparse.size".
pub const SPARSE_SIZE: [u8; 15] = [0x47, 0x4e, 0x55, 0x2e, 0x73, 0x70, 0x61, 0x72, 0x73, 0x65, 0x2e, 0x73, 0x69, 0x7a, 0x65];

/// "GNU.sparse.realsize".
pub const REAL_SIZE: [u8; 19] = [0x47, 0x4e, 0x55, 0x2e, 0x73, 0x70, 0x61, 0x72, 0x73, 0x65, 0x2e, 0x72, 0x65, 0x61, 0x6c, 0x73, 0x69, 0x7a, 0x65];

/// "GNU.sparse.major".
pub const MAJOR: [u8; 16] = [0x47, 0x4e, 0x55, 0x2e, 0x73, 0x70, 0x61, 0x72, 0x73, 0x65, 0x2e, 0x6d, 0x61, 0x6a, 0x6f, 0x72];

/// "GNU.sparse.minor".
pub const MINOR: [u8; 16] = [0x47, 0x4e, 0x55, 0x2e, 0x73, 0x70, 0x61, 0x72, 0x73, 0x65, 0x2e, 0x6d, 0x69, 0x6e, 0x6f, 0x72];

/// "GNU.sparse.offset".
pub const OFFSET: [u8; 17] = [0x47, 0x4e, 0x55, 0x2e, 0x73, 0x70, 0x61, 0x72, 0x73, 0x65, 0x2e, 0x6f, 0x66, 0x66, 0x73, 0x65, 0x74];

/// "GNU.sparse.numbytes".
pub const NUMBYTES: [u8; 19] = [0x47, 0x4e, 0x55, 0x2e, 0x73, 0x70, 0x61, 0x72, 0x73, 0x65, 0x2e, 0x6e, 0x75, 0x6d, 0x62, 0x79, 0x74, 0x65, 0x73];

/// "GNU.sparse.map".
pub const MAP: [u8; 14] = [0x47, 0x4e, 0x55, 0x2e, 0x73, 0x70, 0x61, 0x72, 0x73, 0x65, 0x2e, 0x6d, 0x61, 0x70];

// Numbers.

pub open spec fn is_blank(b: u8) -> bool {
    b == 0x20 || b == 0
}

pub open spec fn all_blank(s: Seq<u8>) -> bool {
    forall|i: int| 0 <= i < s.len() ==> is_blank(#[trigger] s[i])
}

/// The number that some bytes are, the first one the most significant.
pub open spec fn base256(s: Seq<u8>) -> nat
    decreases s.len(),
{
    if s.len() == 0 {
        0
    } else {
        base256(s.drop_last()) * 256 + s.last() as nat
    }
}

pub open spec fn is_octal(b: u8) -> bool {
    0x30 <= b <= 0x37
}

/// The number that octal digits are.
pub open spec fn octal(s: Seq<u8>) -> nat
    decreases s.len(),
{
    if s.len() == 0 {
        0
    } else {
        octal(s.drop_last()) * 8 + (s.last() - 0x30) as nat
    }
}

/// `s` without the blanks at its start.
pub open spec fn skip_blanks(s: Seq<u8>) -> Seq<u8>
    decreases s.len(),
{
    if s.len() > 0 && is_blank(s[0]) {
        skip_blanks(s.skip(1))
    } else {
        s
    }
}

/// The octal digits at the start of `s`.
pub open spec fn octal_run(s: Seq<u8>) -> nat
    decreases s.len(),
{
    if s.len() > 0 && is_octal(s[0]) {
        1 + octal_run(s.skip(1))
    } else {
        0
    }
}

pub open spec fn fits_u64(n: nat) -> Option<u64> {
    if n <= u64::MAX {
        Some(n as u64)
    } else {
        None
    }
}

/// A numeric field: octal text, or GNU's base-256 (top bit of the first byte set). An
/// all-blank field is no number, nor is a negative one.
pub open spec fn number_of(field: Seq<u8>) -> Option<u64> {
    if field.len() > 0 && field[0] >= 0x80 {
        if field[0] == 0xff {
            None
        } else {
            fits_u64(base256(field.update(0, (field[0] - 0x80) as u8)))
        }
    } else if all_blank(field) {
        None
    } else {
        let s = skip_blanks(field);
        fits_u64(octal(s.take(octal_run(s) as int)))
    }
}

proof fn lemma_base256_grows(s: Seq<u8>, n: int)
    requires
        0 <= n <= s.len(),
    ensures
        base256(s.take(n)) <= base256(s),
    decreases s.len() - n,
{
    if n < s.len() {
        lemma_base256_grows(s, n + 1);
        assert(s.take(n + 1).drop_last() == s.take(n));
    } else {
        assert(s.take(n) == s);
    }
}

proof fn lemma_octal_grows(s: Seq<u8>, n: int)
    requires
        0 <= n <= s.len(),
    ensures
        octal(s.take(n)) <= octal(s),
    decreases s.len() - n,
{
    if n < s.len() {
        lemma_octal_grows(s, n + 1);
        assert(s.take(n + 1).drop_last() == s.take(n));
    } else {
        assert(s.take(n) == s);
    }
}

proof fn lemma_octal_run(s: Seq<u8>)
    ensures
        octal_run(s) <= s.len(),
        forall|i: int| 0 <= i < octal_run(s) ==> is_octal(#[trigger] s[i]),
        octal_run(s) < s.len() ==> !is_octal(s[octal_run(s) as int]),
    decreases s.len(),
{
    if s.len() > 0 && is_octal(s[0]) {
        lemma_octal_run(s.skip(1));
        assert forall|i: int| 0 <= i < octal_run(s) implies is_octal(#[trigger] s[i]) by {
            if i > 0 {
                assert(s[i] == s.skip(1)[i - 1]);
            }
        }
    }
}

fn blank(b: u8) -> (r: bool)
    ensures
        r == is_blank(b),
{
    b == 0x20 || b == 0
}

/// A numeric field: octal text, or GNU's base-256 (top bit of the first byte set).
pub fn number(field: &[u8]) -> (r: Option<u64>)
    ensures
        r == number_of(field@),
{
    if field.len() > 0 && field[0] >= 0x80 {
        if field[0] == 0xff {
            return None;
        }
        let ghost s = field@.update(0, (field@[0] - 0x80) as u8);
        let mut v: u64 = (field[0] - 0x80) as u64;
        let mut i: usize = 1;
        proof {
            assert(s.take(1).drop_last() == Seq::<u8>::empty());
            assert(base256(Seq::<u8>::empty()) == 0);
        }
        while i < field.len()
            invariant
                1 <= i <= field@.len(),
                s == field@.update(0, (field@[0] - 0x80) as u8),
                s.len() == field@.len(),
                v == base256(s.take(i as int)),
                number_of(field@) == fits_u64(base256(s)),
            decreases field@.len() - i,
        {
            proof {
                lemma_base256_grows(s, i + 1);
                assert(s.take(i + 1).drop_last() == s.take(i as int));
            }
            if v > (u64::MAX - field[i] as u64) / 256 {
                return None;
            }
            v = v * 256 + field[i] as u64;
            i = i + 1;
        }
        proof {
            assert(s.take(s.len() as int) == s);
        }
        return Some(v);
    }
    let mut a: usize = 0;
    proof {
        assert(field@.skip(0) == field@);
    }
    while a < field.len() && blank(field[a])
        invariant
            a <= field@.len(),
            forall|k: int| 0 <= k < a ==> is_blank(#[trigger] field@[k]),
            skip_blanks(field@) == skip_blanks(field@.skip(a as int)),
        decreases field@.len() - a,
    {
        proof {
            assert(field@.skip(a as int).skip(1) == field@.skip(a + 1));
        }
        a = a + 1;
    }
    if a == field.len() {
        assert(all_blank(field@));
        return None;
    }
    assert(!is_blank(field@[a as int]));
    let ghost s = skip_blanks(field@);
    let ghost n = octal_run(s) as int;
    proof {
        assert(s == field@.skip(a as int));
        lemma_octal_run(s);
    }
    let mut v: u64 = 0;
    let mut i: usize = a;
    while i < field.len() && field[i] >= 0x30 && field[i] <= 0x37
        invariant
            a <= i <= field@.len(),
            s == field@.skip(a as int),
            n == octal_run(s),
            n <= s.len(),
            forall|k: int| 0 <= k < n ==> is_octal(#[trigger] s[k]),
            n < s.len() ==> !is_octal(s[n]),
            i - a <= n,
            v == octal(s.take(i - a)),
            number_of(field@) == fits_u64(octal(s.take(n))),
        decreases field@.len() - i,
    {
        proof {
            assert(s[i - a] == field@[i as int]);
            assert(i - a < n);
            assert(s.take(n).take(i - a + 1) == s.take(i - a + 1));
            lemma_octal_grows(s.take(n), i - a + 1);
            assert(s.take(i - a + 1).drop_last() == s.take(i - a));
        }
        let d: u64 = (field[i] - 0x30) as u64;
        if v > (u64::MAX - d) / 8 {
            return None;
        }
        v = v * 8 + d;
        i = i + 1;
    }
    proof {
        if i < field@.len() {
            assert(s[i - a] == field@[i as int]);
        }
        assert(i - a == n);
    }
    Some(v)
}

// Headers.

/// A header's byte as its checksum counts it: the checksum field as spaces.
pub open spec fn summed_byte(b: Seq<u8>, i: int) -> u8 {
    if 148 <= i < 156 {
        0x20
    } else {
        b[i]
    }
}

pub open spec fn unsigned_sum(b: Seq<u8>, n: nat) -> int
    decreases n,
{
    if n == 0 {
        0
    } else {
        unsigned_sum(b, (n - 1) as nat) + summed_byte(b, n - 1)
    }
}

pub open spec fn signed_byte(x: u8) -> int {
    if x >= 0x80 {
        x - 0x100
    } else {
        x as int
    }
}

pub open spec fn signed_sum(b: Seq<u8>, n: nat) -> int
    decreases n,
{
    if n == 0 {
        0
    } else {
        signed_sum(b, (n - 1) as nat) + signed_byte(summed_byte(b, n - 1))
    }
}

/// Does a header's checksum match: the sum of all bytes with the checksum field as spaces?
/// (Some old tars summed signed bytes.)
pub open spec fn sum_ok(b: Seq<u8>) -> bool {
    match number_of(b.subrange(148, 156)) {
        None => false,
        Some(stored) => stored == unsigned_sum(b, 512) || stored == signed_sum(b, 512),
    }
}

fn checksum_ok(b: &[u8]) -> (r: bool)
    requires
        b@.len() >= 512,
    ensures
        r == sum_ok(b@),
{
    let field: Vec<u8> = bytes_at(b, 148, 8);
    let stored: u64 = match number(&field) {
        Some(n) => n,
        None => {
            return false;
        },
    };
    let mut unsigned: u64 = 0;
    let mut signed: i64 = 0;
    let mut i: usize = 0;
    while i < 512
        invariant
            i <= 512,
            b@.len() >= 512,
            unsigned == unsigned_sum(b@, i as nat),
            signed == signed_sum(b@, i as nat),
            unsigned <= 255 * i,
            -128 * i <= signed <= 127 * i,
        decreases 512 - i,
    {
        let x: u8 = if 148 <= i && i < 156 {
            0x20
        } else {
            b[i]
        };
        unsigned = unsigned + x as u64;
        signed = signed + (if x >= 0x80 {
            x as i64 - 0x100
        } else {
            x as i64
        });
        i = i + 1;
    }
    stored == unsigned || stored as i128 == signed as i128
}

/// Is this a ustar, GNU or pax header?
pub open spec fn header_like(b: Seq<u8>) -> bool {
    b.len() >= 512 && holds(b, 257, USTAR@) && sum_ok(b)
}

/// Is this 512-byte block a ustar/GNU/pax header?
pub fn is_header(b: &[u8]) -> (r: bool)
    ensures
        r == header_like(b@),
{
    b.len() >= BLOCK && has_bytes(b, 257, &USTAR) && checksum_ok(b)
}

// Pax headers.

/// What a pax extended header says.
pub struct Pax {
    pub size: Option<u64>,
    /// GNU sparse 0.0/0.1: the map and the real size.
    pub sparse: Option<(Vec<Extent>, u64)>,
    /// GNU sparse 1.0: the map is at the start of the data.
    pub sparse_v1: bool,
    pub real_size: Option<u64>,
}

/// What a `Pax` says.
#[verifier::ext_equal]
pub ghost struct Records {
    pub size: Option<u64>,
    pub sparse: Option<(Seq<Extent>, u64)>,
    pub sparse_v1: bool,
    pub real_size: Option<u64>,
}

impl View for Pax {
    type V = Records;

    open spec fn view(&self) -> Records {
        Records {
            size: self.size,
            sparse: match self.sparse {
                Some((map, full)) => Some((map@, full)),
                None => None,
            },
            sparse_v1: self.sparse_v1,
            real_size: self.real_size,
        }
    }
}

/// No pax header.
pub open spec fn no_pax() -> Records {
    Records { size: None, sparse: None, sparse_v1: false, real_size: None }
}

/// The records so far.
#[verifier::ext_equal]
pub ghost struct Gathered {
    pub size: Option<u64>,
    pub real_size: Option<u64>,
    pub major: Option<u64>,
    pub minor: Option<u64>,
    pub offsets: Seq<u64>,
    pub map: Seq<Extent>,
}

pub open spec fn pax_damaged() -> Fault {
    bad_fault("the tar archive is damaged (pax header)"@)
}

/// Where a byte first stands in `s`; the length when it does not.
pub open spec fn find_byte(s: Seq<u8>, b: u8) -> nat
    decreases s.len(),
{
    if s.len() == 0 || s[0] == b {
        0
    } else {
        1 + find_byte(s.skip(1), b)
    }
}

fn byte_at(s: &[u8], b: u8) -> (at: usize)
    ensures
        at == find_byte(s@, b),
        at <= s@.len(),
{
    let mut i: usize = 0;
    proof {
        assert(s@.skip(0) == s@);
    }
    while i < s.len() && s[i] != b
        invariant
            i <= s@.len(),
            find_byte(s@, b) == i + find_byte(s@.skip(i as int), b),
        decreases s@.len() - i,
    {
        proof {
            assert(s@.skip(i as int).skip(1) == s@.skip(i + 1));
        }
        i = i + 1;
    }
    i
}

/// The number in a record's value.
pub open spec fn value_number(value: Seq<u8>) -> Option<u64> {
    if valid_utf8(value) {
        u64_in(trim(decode_utf8(value)))
    } else {
        None
    }
}

fn value_num(value: &[u8]) -> (r: Option<u64>)
    ensures
        r == value_number(value@),
{
    match from_utf8(value) {
        None => None,
        Some(s) => {
            let v: Vec<char> = chars(s);
            let t: Vec<char> = trimmed(&v);
            parse_u64(&t)
        },
    }
}

/// Numbers with commas between them; empty places are passed over.
pub open spec fn comma_numbers(s: Seq<char>) -> Option<Seq<u64>>
    decreases s.len(),
    via comma_shrinks
{
    if s.len() == 0 {
        Some(Seq::empty())
    } else {
        let k = find(s, ',') as int;
        let one = s.take(k);
        let rest = if k < s.len() {
            s.skip(k + 1)
        } else {
            Seq::empty()
        };
        match comma_numbers(rest) {
            None => None,
            Some(more) => if one.len() == 0 {
                Some(more)
            } else {
                match u64_in(trim(one)) {
                    None => None,
                    Some(n) => Some(seq![n] + more),
                }
            },
        }
    }
}

#[via_fn]
proof fn comma_shrinks(s: Seq<char>) {
    lemma_find(s, ',');
}

spec fn then_numbers(done: Seq<u64>, rest: Option<Seq<u64>>) -> Option<Seq<u64>> {
    match rest {
        Some(r) => Some(done + r),
        None => None,
    }
}

fn comma_list(s: &[char]) -> (r: Option<Vec<u64>>)
    ensures
        match r {
            Some(v) => comma_numbers(s@) == Some(v@),
            None => comma_numbers(s@) is None,
        },
{
    let mut v: Vec<u64> = Vec::new();
    let mut at: usize = 0;
    let ghost all = comma_numbers(s@);
    proof {
        assert(s@.skip(0) == s@);
        if all is Some {
            assert(v@ + all->0 == all->0);
        }
    }
    while at < s.len()
        invariant
            at <= s@.len(),
            all == comma_numbers(s@),
            all == then_numbers(v@, comma_numbers(s@.skip(at as int))),
        decreases s@.len() - at,
    {
        let ghost here = s@.skip(at as int);
        let k: usize = find_from(s, at, ',');
        let one: Vec<char> = part(s, at, k);
        proof {
            assert(one@ == here.take(k - at));
            if k < s@.len() {
                assert(here.skip(k - at + 1) == s@.skip(k + 1));
            } else {
                assert(s@.skip(s@.len() as int) == Seq::<char>::empty());
            }
        }
        let next: usize = if k < s.len() {
            k + 1
        } else {
            k
        };
        if one.len() > 0 {
            let t: Vec<char> = trimmed(&one);
            match parse_u64(&t) {
                None => {
                    return None;
                },
                Some(n) => {
                    let ghost before = v@;
                    v.push(n);
                    proof {
                        if let Some(more) = comma_numbers(s@.skip(next as int)) {
                            assert(before + (seq![n] + more) == v@ + more);
                        }
                    }
                },
            }
        }
        at = next;
    }
    proof {
        assert(s@.skip(s@.len() as int) == Seq::<char>::empty());
        assert(v@ + Seq::<u64>::empty() == v@);
    }
    Some(v)
}

/// Pairs of numbers as places.
pub open spec fn pairs_of(numbers: Seq<u64>) -> Seq<Extent> {
    Seq::new(
        numbers.len() / 2,
        |i: int| Extent { start: numbers[2 * i], len: numbers[2 * i + 1] },
    )
}

/// What one record adds.
pub open spec fn with_record(g: Gathered, key: Seq<u8>, value: Seq<u8>) -> Option<Gathered> {
    let n = value_number(value);
    if key == SIZE@ {
        match n {
            Some(n) => Some(Gathered { size: Some(n), ..g }),
            None => None,
        }
    } else if key == SPARSE_SIZE@ || key == REAL_SIZE@ {
        match n {
            Some(n) => Some(Gathered { real_size: Some(n), ..g }),
            None => None,
        }
    } else if key == MAJOR@ {
        match n {
            Some(n) => Some(Gathered { major: Some(n), ..g }),
            None => None,
        }
    } else if key == MINOR@ {
        match n {
            Some(n) => Some(Gathered { minor: Some(n), ..g }),
            None => None,
        }
    } else if key == OFFSET@ {
        // 0.0: repeated offset and numbytes records.
        match n {
            Some(n) => Some(Gathered { offsets: g.offsets.push(n), ..g }),
            None => None,
        }
    } else if key == NUMBYTES@ {
        if g.offsets.len() == 0 {
            None
        } else {
            match n {
                Some(n) => Some(
                    Gathered {
                        offsets: g.offsets.drop_last(),
                        map: g.map.push(Extent { start: g.offsets.last(), len: n }),
                        ..g
                    },
                ),
                None => None,
            }
        }
    } else if key == MAP@ {
        // 0.1: one list.
        if !valid_utf8(value) {
            None
        } else {
            match comma_numbers(decode_utf8(value)) {
                None => None,
                Some(numbers) => if numbers.len() % 2 != 0 || numbers.len() / 2 > MAX_SPARSE {
                    None
                } else {
                    Some(Gathered { map: g.map + pairs_of(numbers), ..g })
                },
            }
        }
    } else {
        Some(g)
    }
}

/// The record at `at`: where it ends, and its key and value if it has them. None where
/// there is no record.
pub open spec fn record_at(data: Seq<u8>, at: int) -> Option<(int, Option<(Seq<u8>, Seq<u8>)>)> {
    // "LEN key=value\n", LEN counting the whole record.
    let rest = data.skip(at);
    let space = find_byte(rest, 0x20) as int;
    if space >= rest.len() || !valid_utf8(rest.take(space)) {
        None
    } else {
        match usize_in(decode_utf8(rest.take(space))) {
            None => None,
            Some(len) => if len <= space + 1 || at + len > data.len() {
                None
            } else {
                let record = data.subrange(at + space + 1, at + len - 1);
                let eq = find_byte(record, 0x3d) as int;
                Some(
                    (
                        at + len,
                        if eq < record.len() {
                            Some((record.take(eq), record.skip(eq + 1)))
                        } else {
                            None
                        },
                    ),
                )
            },
        }
    }
}

/// What the records from `at` on add.
pub open spec fn records_from(data: Seq<u8>, at: int, g: Gathered) -> Option<Gathered>
    decreases data.len() - at,
{
    if at < 0 || at >= data.len() {
        Some(g)
    } else {
        match record_at(data, at) {
            None => None,
            Some((next, fields)) => if next <= at || next > data.len() {
                None
            } else {
                match fields {
                    None => records_from(data, next, g),
                    Some((key, value)) => match with_record(g, key, value) {
                        None => None,
                        Some(g2) => if g2.map.len() > MAX_SPARSE {
                            None
                        } else {
                            records_from(data, next, g2)
                        },
                    },
                }
            },
        }
    }
}

pub open spec fn nothing_gathered() -> Gathered {
    Gathered {
        size: None,
        real_size: None,
        major: None,
        minor: None,
        offsets: Seq::empty(),
        map: Seq::empty(),
    }
}

/// What all the records come to.
pub open spec fn concluded(g: Gathered) -> Result<Records, Fault> {
    let plain = Records { size: g.size, sparse: None, sparse_v1: false, real_size: g.real_size };
    if g.major == Some(1u64) && g.minor == Some(0u64) {
        Ok(Records { sparse_v1: true, ..plain })
    } else if (g.map.len() > 0 || g.major is Some) && g.real_size is Some {
        Ok(Records { sparse: Some((g.map, g.real_size->0)), ..plain })
    } else if g.major is Some || g.minor is Some {
        Err(
            bad_fault(
                "the tar archive uses a sparse format DD-GUI doesn't know ("@ + decimal(
                    (match g.major {
                        Some(n) => n,
                        None => 0,
                    }) as nat,
                ) + "."@ + decimal(
                    (match g.minor {
                        Some(n) => n,
                        None => 0,
                    }) as nat,
                ) + ")"@,
            ),
        )
    } else {
        Ok(plain)
    }
}

/// What a pax extended header says.
pub open spec fn pax_of(data: Seq<u8>) -> Result<Records, Fault> {
    match records_from(data, 0, nothing_gathered()) {
        None => Err(pax_damaged()),
        Some(g) => concluded(g),
    }
}

struct Gathering {
    size: Option<u64>,
    real_size: Option<u64>,
    major: Option<u64>,
    minor: Option<u64>,
    offsets: Vec<u64>,
    map: Vec<Extent>,
}

impl Gathering {
    spec fn now(&self) -> Gathered {
        Gathered {
            size: self.size,
            real_size: self.real_size,
            major: self.major,
            minor: self.minor,
            offsets: self.offsets@,
            map: self.map@,
        }
    }

    /// Takes one record. False if it makes no sense.
    fn record(&mut self, key: &[u8], value: &[u8]) -> (ok: bool)
        ensures
            ok ==> with_record(old(self).now(), key@, value@) == Some(final(self).now()),
            !ok ==> with_record(old(self).now(), key@, value@) is None,
    {
        let n: Option<u64> = value_num(value);
        if is_key(key, &SIZE) {
            self.size = n;
            return n.is_some();
        }
        if is_key(key, &SPARSE_SIZE) || is_key(key, &REAL_SIZE) {
            self.real_size = n;
            return n.is_some();
        }
        if is_key(key, &MAJOR) {
            self.major = n;
            return n.is_some();
        }
        if is_key(key, &MINOR) {
            self.minor = n;
            return n.is_some();
        }
        if is_key(key, &OFFSET) {
            return match n {
                Some(n) => {
                    self.offsets.push(n);
                    true
                },
                None => false,
            };
        }
        if is_key(key, &NUMBYTES) {
            return match (self.offsets.pop(), n) {
                (Some(start), Some(len)) => {
                    self.map.push(Extent { start, len });
                    assert(self.offsets@ == old(self).offsets@.drop_last());
                    true
                },
                _ => false,
            };
        }
        if is_key(key, &MAP) {
            let text: Vec<char> = match from_utf8(value) {
                Some(s) => chars(s),
                None => {
                    return false;
                },
            };
            let numbers: Vec<u64> = match comma_list(&text) {
                Some(v) => v,
                None => {
                    return false;
                },
            };
            if numbers.len() % 2 != 0 || numbers.len() / 2 > MAX_SPARSE {
                return false;
            }
            let mut i: usize = 0;
            proof {
                assert(old(self).map@ + pairs_of(numbers@).take(0) == old(self).map@);
            }
            while i < numbers.len() / 2
                invariant
                    i <= numbers@.len() / 2,
                    numbers@.len() % 2 == 0,
                    self.size == old(self).size,
                    self.real_size == old(self).real_size,
                    self.major == old(self).major,
                    self.minor == old(self).minor,
                    self.offsets@ == old(self).offsets@,
                    self.map@ == old(self).map@ + pairs_of(numbers@).take(i as int),
                decreases numbers@.len() / 2 - i,
            {
                assert(2 * i + 1 < numbers.len());
                let e: Extent = Extent { start: numbers[2 * i], len: numbers[2 * i + 1] };
                self.map.push(e);
                proof {
                    let p = pairs_of(numbers@);
                    assert(p.take(i + 1) == p.take(i as int).push(e));
                    assert(old(self).map@ + p.take(i as int).push(e) == (old(self).map@ + p.take(i as int)).push(e));
                }
                i = i + 1;
            }
            proof {
                let p = pairs_of(numbers@);
                assert(p.take(p.len() as int) == p);
            }
            return true;
        }
        true
    }
}

fn is_key(key: &[u8], name: &[u8]) -> (r: bool)
    ensures
        r == (key@ == name@),
{
    proof {
        if key@.len() == name@.len() {
            assert(key@.subrange(0, name@.len() as int) == key@);
        }
    }
    key.len() == name.len() && has_bytes(key, 0, name)
}

impl Pax {
    /// No pax header.
    pub fn none() -> (p: Pax)
        ensures
            p@ == no_pax(),
    {
        Pax { size: None, sparse: None, sparse_v1: false, real_size: None }
    }

    /// Reads a pax extended header.
    pub fn parse(data: &[u8]) -> (r: Result<Pax, Error>)
        ensures
            match r {
                Ok(p) => pax_of(data@) == Ok::<Records, Fault>(p@),
                Err(e) => pax_of(data@) == Err::<Records, Fault>(e@),
            },
    {
        let mut g: Gathering = Gathering {
            size: None,
            real_size: None,
            major: None,
            minor: None,
            offsets: Vec::new(),
            map: Vec::new(),
        };
        let mut at: usize = 0;
        assert(g.now() == nothing_gathered());
        while at < data.len()
            invariant
                at <= data@.len(),
                records_from(data@, 0, nothing_gathered()) == records_from(data@, at as int, g.now()),
            decreases data@.len() - at,
        {
            let rest: &[u8] = vstd::slice::slice_subrange(data, at, data.len());
            assert(rest@ == data@.skip(at as int));
            let space: usize = byte_at(rest, 0x20);
            if space >= rest.len() {
                return Err(bad("the tar archive is damaged (pax header)"));
            }
            let digits: &[u8] = vstd::slice::slice_subrange(rest, 0, space);
            assert(digits@ == rest@.take(space as int));
            let len: usize = match from_utf8(digits) {
                Some(s) => {
                    let v: Vec<char> = chars(s);
                    match parse_usize(&v) {
                        Some(n) => n,
                        None => {
                            return Err(bad("the tar archive is damaged (pax header)"));
                        },
                    }
                },
                None => {
                    return Err(bad("the tar archive is damaged (pax header)"));
                },
            };
            if len <= space + 1 || len > data.len() - at {
                return Err(bad("the tar archive is damaged (pax header)"));
            }
            let record: &[u8] = vstd::slice::slice_subrange(data, at + space + 1, at + len - 1);
            let eq: usize = byte_at(record, 0x3d);
            if eq < record.len() {
                let key: &[u8] = vstd::slice::slice_subrange(record, 0, eq);
                let value: &[u8] = vstd::slice::slice_subrange(record, eq + 1, record.len());
                assert(key@ == record@.take(eq as int) && value@ == record@.skip(eq + 1));
                if !g.record(key, value) || g.map.len() > MAX_SPARSE {
                    return Err(bad("the tar archive is damaged (pax header)"));
                }
            }
            at = at + len;
        }
        if g.major == Some(1u64) && g.minor == Some(0u64) {
            return Ok(Pax { size: g.size, sparse: None, sparse_v1: true, real_size: g.real_size });
        }
        if g.map.len() > 0 || g.major.is_some() {
            if let Some(full) = g.real_size {
                return Ok(Pax { size: g.size, sparse: Some((g.map, full)), sparse_v1: false, real_size: g.real_size });
            }
        }
        if g.major.is_some() || g.minor.is_some() {
            let mut s: String = "the tar archive uses a sparse format DD-GUI doesn't know (".to_owned();
            push_decimal(&mut s, match g.major {
                Some(n) => n,
                None => 0,
            });
            s.append(".");
            push_decimal(&mut s, match g.minor {
                Some(n) => n,
                None => 0,
            });
            s.append(")");
            return Err(bad(s.as_str()));
        }
        Ok(Pax { size: g.size, sparse: None, sparse_v1: false, real_size: g.real_size })
    }
}

// The first file.

pub open spec fn all_zero(s: Seq<u8>) -> bool {
    forall|i: int| 0 <= i < s.len() ==> #[trigger] s[i] == 0
}

fn zeros_at(b: &[u8], at: usize, n: usize) -> (r: bool)
    requires
        at + n <= b@.len(),
    ensures
        r == all_zero(b@.subrange(at as int, at + n)),
{
    let mut i: usize = 0;
    let ghost s = b@.subrange(at as int, at + n);
    while i < n
        invariant
            i <= n,
            at + n <= b@.len(),
            s == b@.subrange(at as int, at + n),
            forall|k: int| 0 <= k < i ==> #[trigger] s[k] == 0,
        decreases n - i,
    {
        assert(s[i as int] == b@[at + i]);
        assert(at + i < b.len());
        if b[at + i] != 0 {
            return false;
        }
        i = i + 1;
    }
    true
}

/// `n` bytes and the padding to a whole block.
pub open spec fn padded_to(n: u64) -> int {
    let blocks = (n + 511) / 512;
    if blocks * 512 > u64::MAX {
        u64::MAX as int
    } else {
        blocks * 512
    }
}

fn padded(n: u64) -> (r: u64)
    ensures
        r == padded_to(n),
{
    let whole: u64 = n / 512;
    let blocks: u64 = if n % 512 > 0 {
        whole + 1
    } else {
        whole
    };
    if blocks > u64::MAX / 512 {
        u64::MAX
    } else {
        blocks * 512
    }
}

/// Where the first file's data is in the archive, and which parts of the file that data
/// is. The rest of the file is zeros.
#[verifier::ext_equal]
pub ghost struct Found {
    pub at: int,
    pub map: Seq<Extent>,
    pub size: u64,
}

pub open spec fn cut_short() -> Fault {
    bad_fault("the tar archive is cut short"@)
}

pub open spec fn map_damaged() -> Fault {
    bad_fault("the tar archive is damaged (sparse map)"@)
}

/// Those that are not empty.
pub open spec fn not_empty(map: Seq<Extent>) -> Seq<Extent>
    decreases map.len(),
{
    if map.len() == 0 {
        Seq::empty()
    } else if map.last().len > 0 {
        not_empty(map.drop_last()).push(map.last())
    } else {
        not_empty(map.drop_last())
    }
}

/// A sparse file: its map must be in order and account for all the stored data.
pub open spec fn sparse_of(at: int, map: Seq<Extent>, size: u64, stored: u64) -> Result<Found, Fault> {
    if in_order(map, size as int) && total(map) == stored {
        Ok(Found { at, map: not_empty(map), size })
    } else {
        Err(map_damaged())
    }
}

/// Map entries of an old GNU sparse header: up to the first blank one.
pub open spec fn entries_from(b: Seq<u8>, at: int, count: nat) -> Option<Seq<Extent>>
    decreases count,
{
    if count == 0 || all_zero(b.subrange(at, at + 24)) {
        Some(Seq::empty())
    } else {
        match (number_of(b.subrange(at, at + 12)), number_of(b.subrange(at + 12, at + 24))) {
            (Some(start), Some(len)) => match entries_from(b, at + 24, (count - 1) as nat) {
                Some(rest) => Some(seq![Extent { start, len }] + rest),
                None => None,
            },
            _ => None,
        }
    }
}

/// The map after the extension blocks from `at` on, and where they end.
pub open spec fn extended_from(all: Seq<u8>, at: int, map: Seq<Extent>) -> Result<(int, Seq<Extent>), Fault>
    decreases all.len() - at,
{
    if at < 0 || at + 512 > all.len() {
        Err(cut_short())
    } else {
        match entries_from(all, at, 21) {
            None => Err(map_damaged()),
            Some(more) => if (map + more).len() > MAX_SPARSE {
                Err(map_damaged())
            } else if all[at + 504] != 0 {
                extended_from(all, at + 512, map + more)
            } else {
                Ok((at + 512, map + more))
            },
        }
    }
}

/// An old GNU sparse file whose header is at `at`.
pub open spec fn gnu_of(all: Seq<u8>, at: int, stored: u64) -> Result<Found, Fault> {
    match entries_from(all, at + 386, 4) {
        None => Err(map_damaged()),
        Some(map) => match number_of(all.subrange(at + 483, at + 495)) {
            None => Err(map_damaged()),
            Some(size) => if all[at + 482] != 0 {
                match extended_from(all, at + 512, map) {
                    Err(f) => Err(f),
                    Ok((end, map)) => sparse_of(end, map, size, stored),
                }
            } else {
                sparse_of(at + 512, map, size, stored)
            },
        },
    }
}

/// The number that decimal digits are.
pub open spec fn digits_number(s: Seq<u8>) -> Option<u64> {
    u64_in(Seq::new(s.len(), |i: int| s[i] as char))
}

/// The number on the line that starts at `start`, and where the next line is. The digits
/// up to `at` have been read.
pub open spec fn line_from(all: Seq<u8>, start: int, at: int) -> Result<(u64, int), Fault>
    decreases all.len() - at,
{
    if at >= all.len() {
        Err(cut_short())
    } else if all[at] == 0x0a {
        match digits_number(all.subrange(start, at)) {
            Some(n) => Ok((n, at + 1)),
            None => Err(map_damaged()),
        }
    } else if !(0x30 <= all[at] <= 0x39) || at - start > 20 {
        Err(map_damaged())
    } else {
        line_from(all, start, at + 1)
    }
}

/// `n` pairs of lines from `at` on, and where they end.
pub open spec fn pairs_from(all: Seq<u8>, at: int, n: nat) -> Result<(Seq<Extent>, int), Fault>
    decreases n,
{
    if n == 0 {
        Ok((Seq::empty(), at))
    } else {
        match line_from(all, at, at) {
            Err(f) => Err(f),
            Ok((start, second)) => match line_from(all, second, second) {
                Err(f) => Err(f),
                Ok((len, next)) => match pairs_from(all, next, (n - 1) as nat) {
                    Err(f) => Err(f),
                    Ok((rest, end)) => Ok((seq![Extent { start, len }] + rest, end)),
                },
            },
        }
    }
}

/// A pax sparse file whose data is at `at`: the map from the pax header (0.0, 0.1) or from
/// the start of the data (1.0).
pub open spec fn pax_sparse_of(all: Seq<u8>, at: int, stored: u64, pax: Records) -> Result<Found, Fault> {
    match pax.sparse {
        Some((map, size)) => sparse_of(at, map, size, stored),
        None => match pax.real_size {
            None => Err(map_damaged()),
            // Decimal numbers, one per line: the count, then offsets and sizes, padded to a
            // whole block.
            Some(size) => match line_from(all, at, at) {
                Err(f) => Err(f),
                Ok((count, first)) => if count > MAX_SPARSE {
                    Err(map_damaged())
                } else {
                    match pairs_from(all, first, count as nat) {
                        Err(f) => Err(f),
                        Ok((map, end)) => {
                            let len = padded_to((end - at) as u64);
                            if len > stored {
                                Err(map_damaged())
                            } else if at + len > all.len() {
                                Err(cut_short())
                            } else {
                                sparse_of(at + len, map, size, (stored - len) as u64)
                            }
                        },
                    }
                },
            },
        },
    }
}

/// The data of a pax header: `len` bytes at `at`, and padding.
pub open spec fn meta_of(all: Seq<u8>, at: int, len: u64) -> Result<Seq<u8>, Fault> {
    if len > MAX_META {
        Err(bad_fault("the tar archive is damaged (a huge extended header)"@))
    } else if at + padded_to(len) > all.len() {
        Err(cut_short())
    } else {
        Ok(all.subrange(at, at + len))
    }
}

/// The kinds of entries that are regular files.
pub open spec fn is_regular(kind: u8) -> bool {
    kind == 0x30 || kind == 0 || kind == 0x37
}

/// The stored size of the entry whose header is at `at`.
pub open spec fn stored_of(all: Seq<u8>, at: int, pax: Records) -> Option<u64> {
    match pax.size {
        Some(size) => Some(size),
        None => number_of(all.subrange(at + 124, at + 136)),
    }
}

/// The first regular file at or after the header at `at`, about which a pax header said
/// `pax`.
pub open spec fn first_from(all: Seq<u8>, at: int, pax: Records) -> Result<Found, Fault>
    decreases all.len() - at,
{
    let header = all.subrange(at, at + 512);
    let data = at + 512;
    if at < 0 || data > all.len() {
        Err(cut_short())
    } else if all_zero(header) {
        Err(bad_fault("the tar archive holds no files"@))
    } else if !sum_ok(header) {
        Err(bad_fault("the tar archive is damaged (a header's checksum doesn't match)"@))
    } else {
        match stored_of(all, at, pax) {
            None => Err(bad_fault("the tar archive is damaged"@)),
            Some(stored) => {
                let kind = header[156];
                if kind == 0x78 || kind == 0x67 {
                    match meta_of(all, data, stored) {
                        Err(f) => Err(f),
                        Ok(meta) => if kind == 0x78 {
                            match pax_of(meta) {
                                Err(f) => Err(f),
                                Ok(next) => first_from(all, data + padded_to(stored), next),
                            }
                        } else {
                            // A global header holds defaults for every file; none of what is
                            // used here (sizes, sparse maps) belongs there.
                            first_from(all, data + padded_to(stored), pax)
                        },
                    }
                } else if is_regular(kind) && (pax.sparse is Some || pax.sparse_v1) {
                    pax_sparse_of(all, data, stored, pax)
                } else if is_regular(kind) && stored > 0 {
                    Ok(Found { at: data, map: seq![Extent { start: 0, len: stored }], size: stored })
                } else if kind == 0x53 {
                    gnu_of(all, at, stored)
                } else if data + padded_to(stored) > all.len() {
                    Err(cut_short())
                } else {
                    // Directories, links, long names, empty files: their data is skipped.
                    first_from(all, data + padded_to(stored), no_pax())
                }
            },
        }
    }
}

/// The first regular file of an archive.
pub open spec fn first_of(all: Seq<u8>) -> Result<Found, Fault> {
    first_from(all, 0, no_pax())
}

/// Is `data` how `all` starts?
pub open spec fn starts(data: Seq<u8>, all: Seq<u8>) -> bool {
    data.len() <= all.len() && all.take(data.len() as int) == data
}

proof fn lemma_same_part(data: Seq<u8>, all: Seq<u8>, a: int, b: int)
    requires
        starts(data, all),
        0 <= a <= b <= data.len(),
    ensures
        data.subrange(a, b) == all.subrange(a, b),
{
    let n = data.len() as int;
    assert forall|i: int| a <= i < b implies data[i] == all[i] by {
        assert(all.take(n)[i] == all[i]);
    }
    assert(data.subrange(a, b) =~= all.subrange(a, b));
}

proof fn lemma_same_byte(data: Seq<u8>, all: Seq<u8>, i: int)
    requires
        starts(data, all),
        0 <= i < data.len(),
    ensures
        data[i] == all[i],
{
    assert(all.take(data.len() as int)[i] == all[i]);
}

proof fn lemma_entries_same(data: Seq<u8>, all: Seq<u8>, at: int, count: nat)
    requires
        starts(data, all),
        0 <= at,
        at + count * 24 <= data.len(),
    ensures
        entries_from(data, at, count) == entries_from(all, at, count),
    decreases count,
{
    if count > 0 {
        lemma_same_part(data, all, at, at + 24);
        lemma_same_part(data, all, at, at + 12);
        lemma_same_part(data, all, at + 12, at + 24);
        lemma_entries_same(data, all, at + 24, (count - 1) as nat);
    }
}

proof fn lemma_extended_same(data: Seq<u8>, all: Seq<u8>, at: int, map: Seq<Extent>)
    requires
        starts(data, all),
        extended_from(data, at, map) != Err::<(int, Seq<Extent>), Fault>(cut_short()),
    ensures
        extended_from(data, at, map) == extended_from(all, at, map),
    decreases data.len() - at,
{
    lemma_entries_same(data, all, at, 21);
    lemma_same_byte(data, all, at + 504);
    if let Some(more) = entries_from(data, at, 21) {
        if (map + more).len() <= MAX_SPARSE && data[at + 504] != 0 {
            lemma_extended_same(data, all, at + 512, map + more);
        }
    }
}

proof fn lemma_line_same(data: Seq<u8>, all: Seq<u8>, start: int, at: int)
    requires
        starts(data, all),
        0 <= start <= at,
        line_from(data, start, at) != Err::<(u64, int), Fault>(cut_short()),
    ensures
        line_from(data, start, at) == line_from(all, start, at),
        line_from(data, start, at) matches Ok(r) ==> at < r.1 <= data.len(),
    decreases data.len() - at,
{
    lemma_same_byte(data, all, at);
    lemma_same_part(data, all, start, at);
    if data[at] != 0x0a && 0x30 <= data[at] <= 0x39 && at - start <= 20 {
        lemma_line_same(data, all, start, at + 1);
    }
}

proof fn lemma_pairs_same(data: Seq<u8>, all: Seq<u8>, at: int, n: nat)
    requires
        starts(data, all),
        0 <= at <= data.len(),
        pairs_from(data, at, n) != Err::<(Seq<Extent>, int), Fault>(cut_short()),
    ensures
        pairs_from(data, at, n) == pairs_from(all, at, n),
        pairs_from(data, at, n) matches Ok(r) ==> at <= r.1 <= data.len(),
    decreases n,
{
    if n > 0 {
        lemma_line_same(data, all, at, at);
        if let Ok((start, second)) = line_from(data, at, at) {
            lemma_line_same(data, all, second, second);
            if let Ok((len, next)) = line_from(data, second, second) {
                lemma_pairs_same(data, all, next, (n - 1) as nat);
            }
        }
    }
}

proof fn lemma_pax_sparse_same(data: Seq<u8>, all: Seq<u8>, at: int, stored: u64, pax: Records)
    requires
        starts(data, all),
        0 <= at <= data.len(),
        pax_sparse_of(data, at, stored, pax) != Err::<Found, Fault>(cut_short()),
    ensures
        pax_sparse_of(data, at, stored, pax) == pax_sparse_of(all, at, stored, pax),
{
    if pax.sparse is None && pax.real_size is Some {
        lemma_line_same(data, all, at, at);
        if let Ok((count, first)) = line_from(data, at, at) {
            if count <= MAX_SPARSE {
                lemma_pairs_same(data, all, first, count as nat);
            }
        }
    }
}

proof fn lemma_gnu_same(data: Seq<u8>, all: Seq<u8>, at: int, stored: u64)
    requires
        starts(data, all),
        0 <= at,
        at + 512 <= data.len(),
        gnu_of(data, at, stored) != Err::<Found, Fault>(cut_short()),
    ensures
        gnu_of(data, at, stored) == gnu_of(all, at, stored),
{
    lemma_entries_same(data, all, at + 386, 4);
    lemma_same_part(data, all, at + 483, at + 495);
    lemma_same_byte(data, all, at + 482);
    if let Some(map) = entries_from(data, at + 386, 4) {
        if number_of(data.subrange(at + 483, at + 495)) is Some && data[at + 482] != 0 {
            lemma_extended_same(data, all, at + 512, map);
        }
    }
}

proof fn lemma_first_same(data: Seq<u8>, all: Seq<u8>, at: int, pax: Records)
    requires
        starts(data, all),
        first_from(data, at, pax) != Err::<Found, Fault>(cut_short()),
    ensures
        first_from(data, at, pax) == first_from(all, at, pax),
    decreases data.len() - at,
{
    let body = at + 512;
    lemma_same_part(data, all, at, at + 512);
    lemma_same_part(data, all, at + 124, at + 136);
    if !all_zero(data.subrange(at, body)) && sum_ok(data.subrange(at, body)) {
        if let Some(stored) = stored_of(data, at, pax) {
            let kind = data.subrange(at, body)[156];
            let next = body + padded_to(stored);
            if kind == 0x78 || kind == 0x67 {
                if stored <= MAX_META {
                    lemma_same_part(data, all, body, body + stored);
                    if kind == 0x67 {
                        lemma_first_same(data, all, next, pax);
                    } else if let Ok(p) = pax_of(data.subrange(body, body + stored)) {
                        lemma_first_same(data, all, next, p);
                    }
                }
            } else if is_regular(kind) && (pax.sparse is Some || pax.sparse_v1) {
                lemma_pax_sparse_same(data, all, body, stored, pax);
            } else if is_regular(kind) && stored > 0 {
            } else if kind == 0x53 {
                lemma_gnu_same(data, all, at, stored);
            } else {
                lemma_first_same(data, all, next, no_pax());
            }
        }
    }
}

/// Once the start of an archive tells what its first file is, or that something is wrong
/// with it other than that it is cut short, nothing that comes after it changes that.
pub proof fn law_more_data_changes_nothing(data: Seq<u8>, all: Seq<u8>)
    requires
        starts(data, all),
        first_of(data) != Err::<Found, Fault>(cut_short()),
    ensures
        first_of(all) == first_of(data),
{
    lemma_first_same(data, all, 0, no_pax());
}

/// Why the first file was not found.
#[derive(Debug)]
pub enum Halt {
    /// The headers go on after what was given.
    More,
    Failed(Error),
}

/// Where the first file's data is in the archive, and what reads it.
pub struct Entry {
    pub at: u64,
    pub contents: Contents,
}

impl Entry {
    pub open spec fn found(&self) -> Found {
        Found { at: self.at as int, map: self.contents.parts(), size: self.contents.size() }
    }

    pub open spec fn wf(&self) -> bool {
        self.contents.wf() && self.contents.fresh()
    }
}

spec fn told(r: Result<Entry, Error>, s: Result<Found, Fault>) -> bool {
    match r {
        Ok(e) => e.wf() && s == Ok::<Found, Fault>(e.found()),
        Err(e) => s == Err::<Found, Fault>(e@),
    }
}

proof fn lemma_not_empty(map: Seq<Extent>, size: int)
    requires
        in_order(map, size),
    ensures
        none_empty(not_empty(map)),
        in_order(not_empty(map), size),
        total(not_empty(map)) == total(map),
        not_empty(map).len() > 0 ==> map.len() > 0 && end_of(not_empty(map)) <= end_of(map),
    decreases map.len(),
{
    if map.len() > 0 {
        let rest = map.drop_last();
        let r = not_empty(rest);
        let all = not_empty(map);
        assert(in_order(rest, size)) by {
            assert forall|i: int| 0 <= i < rest.len() implies (#[trigger] rest[i]).end() <= size by {
                assert(rest[i] == map[i]);
            }
            assert forall|i: int, j: int| 0 <= i < j < rest.len() implies (#[trigger] rest[i]).end() <= (
            #[trigger] rest[j]).start by {
                assert(rest[i] == map[i] && rest[j] == map[j]);
            }
        }
        lemma_not_empty(rest, size);
        if rest.len() > 0 {
            assert(rest.last() == map[map.len() - 2]);
            assert(map[map.len() - 2].end() <= map[map.len() - 1].start);
        }
        if map.last().len > 0 {
            assert(all.drop_last() == r);
            assert forall|i: int, j: int| 0 <= i < j < all.len() implies (#[trigger] all[i]).end() <= (
            #[trigger] all[j]).start by {
                assert(all[i] == r[i]);
                if j < r.len() {
                    assert(all[j] == r[j]);
                } else if i < r.len() - 1 {
                    assert(r[i].end() <= r[r.len() - 1].start);
                }
            }
        }
    }
}

/// Checks a sparse map and makes the reader that fills its holes with zeros.
fn sparse(at: u64, map: Vec<Extent>, size: u64, stored: u64) -> (r: Result<Entry, Error>)
    ensures
        told(r, sparse_of(at as int, map@, size, stored)),
{
    let mut end: u64 = 0;
    let mut sum: u64 = 0;
    let mut i: usize = 0;
    let mut kept: Vec<Extent> = Vec::new();
    proof {
        assert(map@.take(0) == Seq::<Extent>::empty());
    }
    while i < map.len()
        invariant
            i <= map@.len(),
            in_order(map@.take(i as int), size as int),
            end == end_of(map@.take(i as int)),
            sum == total(map@.take(i as int)),
            sum <= end,
            i > 0 ==> end <= size,
            kept@ == not_empty(map@.take(i as int)),
        decreases map@.len() - i,
    {
        let e: Extent = map[i];
        let ghost before = map@.take(i as int);
        let ghost after = map@.take(i + 1);
        proof {
            assert(after.drop_last() == before);
            assert(after.last() == e);
        }
        if e.len > u64::MAX - e.start || e.start < end || e.start + e.len > size {
            proof {
                if in_order(map@, size as int) {
                    assert(map@[i as int].end() <= size);
                    if i > 0 {
                        assert(map@[i - 1].end() <= map@[i as int].start);
                        assert(before.last() == map@[i - 1]);
                    }
                    assert(false);
                }
            }
            return Err(bad("the tar archive is damaged (sparse map)"));
        }
        proof {
            assert forall|a: int, b: int| 0 <= a < b < after.len() implies (#[trigger] after[a]).end() <= (
            #[trigger] after[b]).start by {
                assert(after[a] == before[a]);
                if b < i {
                    assert(after[b] == before[b]);
                } else if a < i - 1 {
                    assert(before[a].end() <= before[i - 1].start);
                }
            }
            assert forall|a: int| 0 <= a < after.len() implies (#[trigger] after[a]).end() <= size by {
                if a < i {
                    assert(after[a] == before[a]);
                }
            }
        }
        end = e.start + e.len;
        sum = sum + e.len;
        if e.len > 0 {
            kept.push(e);
        }
        i = i + 1;
    }
    proof {
        assert(map@.take(map@.len() as int) == map@);
    }
    if sum != stored {
        return Err(bad("the tar archive is damaged (sparse map)"));
    }
    proof {
        lemma_not_empty(map@, size as int);
    }
    Ok(Entry { at, contents: Contents::new(kept, size) })
}

fn entries(b: &[u8], at: usize, count: usize, map: &mut Vec<Extent>) -> (ok: bool)
    requires
        at + count * 24 <= b@.len(),
    ensures
        match entries_from(b@, at as int, count as nat) {
            Some(more) => ok && final(map)@ == old(map)@ + more,
            None => !ok,
        },
    decreases count,
{
    let ghost before = map@;
    if count == 0 || zeros_at(b, at, 24) {
        assert(before + Seq::<Extent>::empty() == before);
        return true;
    }
    assert(at + 24 <= b.len());
    let start: Option<u64> = number(vstd::slice::slice_subrange(b, at, at + 12));
    let len: Option<u64> = number(vstd::slice::slice_subrange(b, at + 12, at + 24));
    match (start, len) {
        (Some(start), Some(len)) => {
            let e: Extent = Extent { start, len };
            map.push(e);
            proof {
                if let Some(rest) = entries_from(b@, at + 24, (count - 1) as nat) {
                    assert(before + (seq![e] + rest) == before.push(e) + rest);
                }
            }
            entries(b, at + 24, count - 1, map)
        },
        _ => false,
    }
}

/// An old GNU sparse file: four map entries in the header, more in extension blocks after
/// it.
fn sparse_gnu(all: &[u8], header: usize, stored: u64) -> (r: Result<Entry, Error>)
    requires
        header + 512 <= all@.len(),
        all@.len() <= u64::MAX,
    ensures
        told(r, gnu_of(all@, header as int, stored)),
{
    assert(header + 512 <= all.len());
    let mut map: Vec<Extent> = Vec::new();
    if !entries(all, header + 386, 4, &mut map) {
        return Err(bad("the tar archive is damaged (sparse map)"));
    }
    proof {
        assert(Seq::<Extent>::empty() + entries_from(all@, header + 386, 4)->0 == entries_from(
            all@,
            header + 386,
            4,
        )->0);
    }
    let size: u64 = match number(vstd::slice::slice_subrange(all, header + 483, header + 495)) {
        Some(n) => n,
        None => {
            return Err(bad("the tar archive is damaged (sparse map)"));
        },
    };
    let mut at: usize = header + 512;
    let mut extended: bool = all[header + 482] != 0;
    let ghost first = map@;
    let ghost more = extended;
    let ghost goal = extended_from(all@, header + 512, first);
    while extended
        invariant
            header + 512 <= at <= all@.len(),
            goal == extended_from(all@, header + 512, first),
            !more ==> !extended && at == header + 512 && map@ == first,
            more && extended ==> goal == extended_from(all@, at as int, map@),
            more && !extended ==> goal == Ok::<(int, Seq<Extent>), Fault>((at as int, map@)),
            more == (all@[header + 482] != 0),
            gnu_of(all@, header as int, stored) == (if more {
                match goal {
                    Err(f) => Err(f),
                    Ok((end, map)) => sparse_of(end, map, size, stored),
                }
            } else {
                sparse_of(header + 512, first, size, stored)
            }),
        decreases all@.len() - at,
    {
        if all.len() - at < BLOCK {
            return Err(bad("the tar archive is cut short"));
        }
        if !entries(all, at, 21, &mut map) || map.len() > MAX_SPARSE {
            return Err(bad("the tar archive is damaged (sparse map)"));
        }
        extended = all[at + 504] != 0;
        at = at + BLOCK;
    }
    sparse(at as u64, map, size, stored)
}

/// The number on the line at `at`, and where the next one is.
fn line(all: &[u8], at: usize) -> (r: Result<(u64, usize), Error>)
    requires
        at <= all@.len(),
    ensures
        match r {
            Ok((n, next)) => line_from(all@, at as int, at as int) == Ok::<(u64, int), Fault>((n, next as int))
                && at < next <= all@.len(),
            Err(e) => line_from(all@, at as int, at as int) == Err::<(u64, int), Fault>(e@),
        },
{
    let mut digits: Vec<char> = Vec::new();
    let mut i: usize = at;
    while i < all.len()
        invariant
            at <= i <= all@.len(),
            digits@.len() == i - at,
            forall|k: int| 0 <= k < i - at ==> #[trigger] digits@[k] == all@[at + k] as char,
            line_from(all@, at as int, at as int) == line_from(all@, at as int, i as int),
        decreases all@.len() - i,
    {
        let b: u8 = all[i];
        if b == 0x0a {
            proof {
                let s = all@.subrange(at as int, i as int);
                assert(digits@ =~= Seq::new(s.len(), |k: int| s[k] as char));
            }
            return match parse_u64(&digits) {
                Some(n) => Ok((n, i + 1)),
                None => Err(bad("the tar archive is damaged (sparse map)")),
            };
        }
        if !(0x30 <= b && b <= 0x39) || i - at > 20 {
            return Err(bad("the tar archive is damaged (sparse map)"));
        }
        digits.push(b as char);
        i = i + 1;
    }
    Err(bad("the tar archive is cut short"))
}

spec fn then_pairs(done: Seq<Extent>, rest: Result<(Seq<Extent>, int), Fault>) -> Result<(Seq<Extent>, int), Fault> {
    match rest {
        Err(f) => Err(f),
        Ok((map, end)) => Ok((done + map, end)),
    }
}

fn pairs(all: &[u8], from: usize, n: u64) -> (r: Result<(Vec<Extent>, usize), Error>)
    requires
        from <= all@.len(),
    ensures
        match r {
            Ok((map, end)) => pairs_from(all@, from as int, n as nat) == Ok::<(Seq<Extent>, int), Fault>(
                (map@, end as int),
            ) && from <= end <= all@.len(),
            Err(e) => pairs_from(all@, from as int, n as nat) == Err::<(Seq<Extent>, int), Fault>(e@),
        },
{
    let mut map: Vec<Extent> = Vec::new();
    let mut at: usize = from;
    let mut left: u64 = n;
    let ghost goal = pairs_from(all@, from as int, n as nat);
    proof {
        if let Ok((m, e)) = goal {
            assert(Seq::<Extent>::empty() + m == m);
        }
    }
    while left > 0
        invariant
            from <= at <= all@.len(),
            goal == pairs_from(all@, from as int, n as nat),
            goal == then_pairs(map@, pairs_from(all@, at as int, left as nat)),
        decreases left,
    {
        let (start, second) = match line(all, at) {
            Ok(p) => p,
            Err(e) => {
                return Err(e);
            },
        };
        let (len, next) = match line(all, second) {
            Ok(p) => p,
            Err(e) => {
                return Err(e);
            },
        };
        let ghost before = map@;
        let e: Extent = Extent { start, len };
        map.push(e);
        proof {
            if let Ok((m, end)) = pairs_from(all@, next as int, (left - 1) as nat) {
                assert(before + (seq![e] + m) == map@ + m);
            }
        }
        at = next;
        left = left - 1;
    }
    proof {
        assert(map@ + Seq::<Extent>::empty() == map@);
    }
    Ok((map, at))
}

/// A pax sparse file: the map from the pax header (0.0, 0.1) or from the start of the data
/// (1.0).
fn sparse_pax(all: &[u8], at: usize, stored: u64, pax: Pax) -> (r: Result<Entry, Error>)
    requires
        at <= all@.len() <= u64::MAX,
    ensures
        told(r, pax_sparse_of(all@, at as int, stored, pax@)),
{
    if let Some((map, size)) = pax.sparse {
        return sparse(at as u64, map, size, stored);
    }
    let size: u64 = match pax.real_size {
        Some(n) => n,
        None => {
            return Err(bad("the tar archive is damaged (sparse map)"));
        },
    };
    let (count, first) = match line(all, at) {
        Ok(p) => p,
        Err(e) => {
            return Err(e);
        },
    };
    if count > MAX_SPARSE as u64 {
        return Err(bad("the tar archive is damaged (sparse map)"));
    }
    let (map, end) = match pairs(all, first, count) {
        Ok(p) => p,
        Err(e) => {
            return Err(e);
        },
    };
    let len: u64 = padded((end - at) as u64);
    if len > stored {
        return Err(bad("the tar archive is damaged (sparse map)"));
    }
    if len > (all.len() - at) as u64 {
        return Err(bad("the tar archive is cut short"));
    }
    sparse(at as u64 + len, map, size, stored - len)
}

fn first(all: &[u8]) -> (r: Result<Entry, Error>)
    requires
        all@.len() <= u64::MAX,
    ensures
        told(r, first_of(all@)),
{
    let mut at: usize = 0;
    let mut pax: Pax = Pax::none();
    loop
        invariant
            at <= all@.len() <= u64::MAX,
            first_of(all@) == first_from(all@, at as int, pax@),
        decreases all@.len() - at,
    {
        if all.len() - at < BLOCK {
            return Err(bad("the tar archive is cut short"));
        }
        if zeros_at(all, at, BLOCK) {
            return Err(bad("the tar archive holds no files"));
        }
        let header: &[u8] = vstd::slice::slice_subrange(all, at, at + BLOCK);
        if !checksum_ok(header) {
            return Err(bad("the tar archive is damaged (a header's checksum doesn't match)"));
        }
        let kind: u8 = header[156];
        let data: usize = at + BLOCK;
        let stored: u64 = match pax.size {
            Some(size) => size,
            None => match number(vstd::slice::slice_subrange(all, at + 124, at + 136)) {
                Some(n) => n,
                None => {
                    return Err(bad("the tar archive is damaged"));
                },
            },
        };
        let meta: bool = kind == 0x78 || kind == 0x67;
        let regular: bool = kind == 0x30 || kind == 0 || kind == 0x37;
        if meta && stored > MAX_META {
            return Err(bad("the tar archive is damaged (a huge extended header)"));
        }
        if !meta && regular && (pax.sparse.is_some() || pax.sparse_v1) {
            return sparse_pax(all, data, stored, pax);
        }
        if !meta && regular && stored > 0 {
            let mut map: Vec<Extent> = Vec::new();
            map.push(Extent { start: 0, len: stored });
            proof {
                assert(map@ == seq![Extent { start: 0, len: stored }]);
            }
            return Ok(Entry { at: data as u64, contents: Contents::new(map, stored) });
        }
        if kind == 0x53 {
            return sparse_gnu(all, at, stored);
        }
        let len: u64 = padded(stored);
        if len > (all.len() - data) as u64 {
            return Err(bad("the tar archive is cut short"));
        }
        if kind == 0x78 {
            // The pax header applies to the header that comes next.
            pax = match Pax::parse(vstd::slice::slice_subrange(all, data, data + stored as usize)) {
                Ok(p) => p,
                Err(e) => {
                    return Err(e);
                },
            };
        } else if !meta {
            pax = Pax::none();
        }
        at = data + len as usize;
    }
}

/// The first regular file of the archive that starts with `data`: where its data is, and
/// what reads it. `ended` if that is the whole archive.
pub fn first_file(data: &[u8], ended: bool) -> (r: Result<Entry, Halt>)
    ensures
        match r {
            Ok(e) => e.wf() && first_of(data@) == Ok::<Found, Fault>(e.found()),
            Err(Halt::More) => !ended && first_of(data@) == Err::<Found, Fault>(cut_short()),
            Err(Halt::Failed(e)) => first_of(data@) == Err::<Found, Fault>(e@) && (ended || e@ != cut_short()),
        },
{
    assert(data.len() <= u64::MAX);
    match first(data) {
        Ok(e) => Ok(e),
        Err(e) => {
            if !ended && same(e.message(), "the tar archive is cut short") && e.kind == Kind::InvalidData {
                Err(Halt::More)
            } else {
                Err(Halt::Failed(e))
            }
        },
    }
}

// Reading the file.

/// What is to come of a file of `size` bytes from `pos` on, when `data` is what is stored of
/// that: `map` says where, and everything else is zeros.
pub open spec fn filled(map: Seq<Extent>, pos: int, size: int, data: Seq<u8>) -> Seq<u8>
    decreases map.len(),
{
    if map.len() == 0 {
        zeros(size - pos)
    } else {
        let e = map[0];
        let from = if pos < e.start {
            e.start as int
        } else {
            pos
        };
        zeros(from - pos) + data.take(e.end() - from) + filled(
            map.skip(1),
            e.end(),
            size,
            data.skip(e.end() - from),
        )
    }
}

pub open spec fn zeros(n: int) -> Seq<u8> {
    Seq::new(
        (if n > 0 {
            n
        } else {
            0
        }) as nat,
        |i: int| 0u8,
    )
}

proof fn lemma_stored(map: Seq<Extent>, pos: int, size: int, data: Seq<u8>, n: int)
    requires
        map.len() > 0,
        map[0].start <= pos < map[0].end(),
        0 <= n <= map[0].end() - pos <= data.len(),
    ensures
        filled(map, pos, size, data) == data.take(n) + (if n == map[0].end() - pos {
            filled(map.skip(1), map[0].end(), size, data.skip(n))
        } else {
            filled(map, pos + n, size, data.skip(n))
        }),
{
    let l = map[0].end() - pos;
    let tail = filled(map.skip(1), map[0].end(), size, data.skip(l));
    assert(zeros(0) =~= Seq::<u8>::empty());
    assert(data.skip(n).skip(l - n) =~= data.skip(l));
    assert(data.take(l) =~= data.take(n) + data.skip(n).take(l - n));
    assert(zeros(0) + data.take(l) + tail =~= data.take(n) + (zeros(0) + data.skip(n).take(l - n) + tail));
    if n == l {
        assert(zeros(0) + data.take(l) + tail =~= data.take(n) + tail);
    }
}

proof fn lemma_hole(map: Seq<Extent>, pos: int, size: int, data: Seq<u8>, n: int)
    requires
        0 <= n,
        map.len() > 0 ==> pos + n <= map[0].start,
        map.len() == 0 ==> pos + n <= size,
    ensures
        filled(map, pos, size, data) == zeros(n) + filled(map, pos + n, size, data),
{
    if map.len() > 0 {
        let e = map[0];
        let d = data.take(e.len as int);
        let tail = filled(map.skip(1), e.end(), size, data.skip(e.len as int));
        let hole = e.start - pos;
        assert(zeros(hole) + d + tail =~= zeros(n) + (zeros(hole - n) + d + tail));
    } else {
        assert(zeros(size - pos) =~= zeros(n) + zeros(size - pos - n));
    }
}

/// Reads a file of an archive: the stored parts from its data, zeros between them.
pub struct Contents {
    /// The stored parts, in order; none is empty.
    map: Vec<Extent>,
    next: usize,
    pos: u64,
    size: u64,
}

impl Contents {
    pub closed spec fn parts(&self) -> Seq<Extent> {
        self.map@
    }

    /// The file's size.
    pub closed spec fn size(&self) -> u64 {
        self.size
    }

    /// How much of the file has been read.
    pub closed spec fn pos(&self) -> u64 {
        self.pos
    }

    pub closed spec fn wf(&self) -> bool {
        &&& in_order(self.map@, self.size as int)
        &&& none_empty(self.map@)
        &&& self.next <= self.map@.len()
        &&& self.pos <= self.size
        &&& self.next < self.map@.len() ==> self.pos < self.map@[self.next as int].end()
        &&& self.next > 0 ==> self.map@[self.next - 1].end() <= self.pos
    }

    /// Has nothing been read?
    pub closed spec fn fresh(&self) -> bool {
        self.pos == 0 && self.next == 0
    }

    /// What is still to come, when `data` is the stored data that has not been read.
    pub closed spec fn rest(&self, data: Seq<u8>) -> Seq<u8> {
        filled(self.map@.skip(self.next as int), self.pos as int, self.size as int, data)
    }

    /// Is stored data wanted next?
    pub closed spec fn wants(&self) -> bool {
        self.pos < self.size && self.next < self.map@.len() && self.map@[self.next as int].start
            <= self.pos
    }

    /// How much stored data has not been read.
    pub closed spec fn wanted(&self) -> int {
        total(self.map@.skip(self.next as int)) - (if self.wants() {
            self.pos - self.map@[self.next as int].start
        } else {
            0
        })
    }

    fn new(map: Vec<Extent>, size: u64) -> (c: Contents)
        requires
            in_order(map@, size as int),
            none_empty(map@),
        ensures
            c.wf(),
            c.fresh(),
            c.parts() == map@,
            c.size() == size,
    {
        proof {
            if map@.len() > 0 {
                assert(map@[0].len > 0);
            }
        }
        Contents { map, next: 0, pos: 0, size }
    }

    /// The file's size.
    pub fn len(&self) -> (n: u64)
        ensures
            n == self.size(),
    {
        self.size
    }

    /// The next bytes of the file, `room` of them at most, and how many bytes of `stored`
    /// they are. `stored` is stored data that has not been read, or nothing if there is no
    /// more of that.
    pub fn read(&mut self, room: usize, stored: &[u8]) -> (r: Result<(Vec<u8>, usize), Error>)
        requires
            old(self).wf(),
        ensures
            final(self).wf(),
            final(self).parts() == old(self).parts(),
            final(self).size() == old(self).size(),
            match r {
                Ok((out, used)) => {
                    &&& used <= stored@.len()
                    &&& out@.len() <= room
                    &&& final(self).pos() == old(self).pos() + out@.len()
                    &&& out@.len() == 0 <==> room == 0 || old(self).pos() == old(self).size()
                    &&& forall|data: Seq<u8>| #[trigger]
                        starts(stored@, data) && data.len() >= old(self).wanted() ==> old(self).rest(data)
                            == out@ + final(self).rest(data.skip(used as int))
                    &&& final(self).wanted() == old(self).wanted() - used
                },
                Err(e) => {
                    &&& e@ == cut_short()
                    &&& room > 0 && old(self).wants() && stored@.len() == 0
                    &&& *final(self) == *old(self)
                },
            },
            r is Err <==> room > 0 && old(self).wants() && stored@.len() == 0,
    {
        let ghost before = *self;
        let mut out: Vec<u8> = Vec::new();
        if self.pos >= self.size || room == 0 {
            proof {
                assert forall|data: Seq<u8>| #[trigger]
                    starts(stored@, data) && data.len() >= before.wanted() implies before.rest(data) == out@
                    + self.rest(data.skip(0)) by {
                    assert(data.skip(0) == data);
                    assert(Seq::<u8>::empty() + before.rest(data) == before.rest(data));
                }
            }
            return Ok((out, 0));
        }
        let space: u64 = room as u64;
        if self.next < self.map.len() {
            let e: Extent = self.map[self.next];
            let ghost map = self.map@.skip(self.next as int);
            proof {
                assert(map[0] == e);
                assert(e.end() <= self.size);
            }
            if self.pos >= e.start {
                if stored.len() == 0 {
                    return Err(bad("the tar archive is cut short"));
                }
                let left: u64 = e.start + e.len - self.pos;
                let mut n: usize = stored.len();
                if n > room {
                    n = room;
                }
                if n as u64 > left {
                    n = left as usize;
                }
                push_bytes(&mut out, vstd::slice::slice_subrange(stored, 0, n));
                self.pos = self.pos + n as u64;
                if self.pos == e.start + e.len {
                    self.next = self.next + 1;
                }
                proof {
                    if before.next + 1 < before.map@.len() {
                        assert(before.map@[before.next as int].end() <= before.map@[before.next + 1].start);
                        assert(before.map@[before.next + 1].len > 0);
                    }
                    lemma_total_first(map);
                    assert(map.skip(1) =~= self.map@.skip(before.next + 1));
                    assert forall|data: Seq<u8>| #[trigger]
                        starts(stored@, data) && data.len() >= before.wanted() implies before.rest(data) == out@
                        + self.rest(data.skip(n as int)) by {
                        lemma_same_part(stored@, data, 0, n as int);
                        assert(out@ =~= data.take(n as int));
                        lemma_stored(map, before.pos as int, self.size as int, data, n as int);
                    }
                }
                return Ok((out, n));
            }
        }
        let hole: u64 = if self.next < self.map.len() {
            self.map[self.next].start - self.pos
        } else {
            self.size - self.pos
        };
        let n: usize = if hole < space {
            hole as usize
        } else {
            room
        };
        let mut i: usize = 0;
        while i < n
            invariant
                i <= n,
                out@ == zeros(i as int),
            decreases n - i,
        {
            out.push(0);
            i = i + 1;
            assert(out@ =~= zeros(i as int));
        }
        self.pos = self.pos + n as u64;
        proof {
            let map = self.map@.skip(self.next as int);
            assert forall|data: Seq<u8>| #[trigger]
                starts(stored@, data) && data.len() >= before.wanted() implies before.rest(data) == out@
                + self.rest(data.skip(0)) by {
                assert(data.skip(0) == data);
                lemma_hole(map, before.pos as int, self.size as int, data, n as int);
            }
        }
        Ok((out, 0))
    }
}

/// For detection: if `head` starts a tar archive, the size of its first regular file when
/// the headers in `head` tell it.
pub open spec fn probed(head: Seq<u8>) -> Option<Option<u64>> {
    if !header_like(head) {
        None
    } else {
        match first_of(head) {
            Ok(f) => Some(Some(f.size)),
            Err(_) => Some(None),
        }
    }
}

/// For detection: if `head` starts a tar archive, the size of its first regular file when
/// the headers in `head` tell it (Some(None) when they don't).
pub fn probe(head: &[u8]) -> (r: Option<Option<u64>>)
    ensures
        r == probed(head@),
{
    if !is_header(head) {
        return None;
    }
    match first_file(head, true) {
        Ok(e) => Some(Some(e.contents.len())),
        Err(_) => Some(None),
    }
}

/// A file of an archive comes out whole: as many bytes as its size says.
pub proof fn law_contents_are_whole(c: Contents, data: Seq<u8>)
    requires
        c.wf(),
        data.len() == c.wanted(),
    ensures
        c.rest(data).len() == c.size() - c.pos(),
{
    let map = c.map@.skip(c.next as int);
    assert(in_order(map, c.size as int)) by {
        assert forall|i: int| 0 <= i < map.len() implies (#[trigger] map[i]).end() <= c.size by {
            assert(map[i] == c.map@[c.next + i]);
        }
        assert forall|i: int, j: int| 0 <= i < j < map.len() implies (#[trigger] map[i]).end() <= (
        #[trigger] map[j]).start by {
            assert(map[i] == c.map@[c.next + i] && map[j] == c.map@[c.next + j]);
        }
    }
    lemma_filled_len(map, c.pos as int, c.size as int, data);
}

proof fn lemma_total_first(map: Seq<Extent>)
    requires
        map.len() > 0,
    ensures
        total(map) == map[0].len + total(map.skip(1)),
    decreases map.len(),
{
    if map.len() == 1 {
        assert(map.drop_last() =~= Seq::<Extent>::empty());
        assert(map.skip(1) =~= Seq::<Extent>::empty());
    } else {
        lemma_total_first(map.drop_last());
        assert(map.drop_last().skip(1) =~= map.skip(1).drop_last());
    }
}

proof fn lemma_filled_len(map: Seq<Extent>, pos: int, size: int, data: Seq<u8>)
    requires
        in_order(map, size),
        0 <= pos <= size,
        map.len() > 0 ==> pos <= map[0].end(),
        data.len() == total(map) - (if map.len() > 0 && map[0].start <= pos {
            pos - map[0].start
        } else {
            0
        }),
    ensures
        filled(map, pos, size, data).len() == size - pos,
    decreases map.len(),
{
    if map.len() > 0 {
        lemma_total_first(map);
        let e = map[0];
        let from = if pos < e.start {
            e.start as int
        } else {
            pos
        };
        let rest = map.skip(1);
        assert(in_order(rest, size)) by {
            assert forall|i: int| 0 <= i < rest.len() implies (#[trigger] rest[i]).end() <= size by {
                assert(rest[i] == map[1 + i]);
            }
            assert forall|i: int, j: int| 0 <= i < j < rest.len() implies (#[trigger] rest[i]).end() <= (
            #[trigger] rest[j]).start by {
                assert(rest[i] == map[1 + i] && rest[j] == map[1 + j]);
            }
        }
        if rest.len() > 0 {
            assert(rest[0] == map[1]);
        }
        lemma_filled_len(rest, e.end(), size, data.skip(e.end() - from));
    }
}

// What archives hold, by the format.

/// `n` in `width` octal digits.
pub open spec fn octal_digits(n: nat, width: nat) -> Seq<u8>
    decreases width,
{
    if width == 0 {
        Seq::empty()
    } else {
        octal_digits(n / 8, (width - 1) as nat).push((0x30 + n % 8) as u8)
    }
}

proof fn lemma_octal_digits(n: nat, width: nat)
    ensures
        octal_digits(n, width).len() == width,
        forall|i: int| 0 <= i < width ==> is_octal(#[trigger] octal_digits(n, width)[i]),
        n < pow2(3 * width) ==> octal(octal_digits(n, width)) == n,
    decreases width,
{
    if width > 0 {
        lemma_octal_digits(n / 8, (width - 1) as nat);
        let d = octal_digits(n, width);
        assert(d.drop_last() =~= octal_digits(n / 8, (width - 1) as nat));
        assert(pow2(3 * width) == 8 * pow2((3 * (width - 1)) as nat)) by {
            lemma_pow2_adds(3, (3 * (width - 1)) as nat);
            lemma2_to64();
        }
    } else {
        lemma2_to64();
    }
}

/// A number that was written in octal digits, with a blank behind them, is read as what it was.
pub proof fn law_octal_numbers_read_back(n: u64, width: nat, blank: u8)
    requires
        width > 0,
        n < pow2(3 * width),
        blank == 0x20 || blank == 0,
    ensures
        number_of(octal_digits(n as nat, width).push(blank)) == Some(n),
{
    let d = octal_digits(n as nat, width);
    let f = d.push(blank);
    lemma_octal_digits(n as nat, width);
    assert(f[0] == d[0] && is_octal(d[0]));
    lemma_octal_run(f);
    let run = octal_run(f) as int;
    if run < width {
        assert(f[run] == d[run]);
    }
    if run > width {
        assert(is_octal(f[width as int]));
    }
    assert(f.take(run) =~= d);
}

proof fn lemma_base256(s: Seq<u8>)
    ensures
        base256(s) == be_value(s),
    decreases s.len(),
{
    if s.len() > 0 {
        lemma_base256(s.drop_last());
    }
}

/// A number that is marked as one in bytes is what its bytes make, the high one first.
pub proof fn law_binary_numbers_are_read(b: Seq<u8>)
    requires
        b.len() > 0,
        b[0] < 0x7f,
        be_value(b) <= u64::MAX,
    ensures
        number_of(b.update(0, (b[0] + 0x80) as u8)) == Some(be_value(b) as u64),
{
    let f = b.update(0, (b[0] + 0x80) as u8);
    assert(f.update(0, (f[0] - 0x80) as u8) =~= b);
    lemma_base256(b);
}

/// The sum of bytes.
pub open spec fn byte_sum(s: Seq<u8>) -> int
    decreases s.len(),
{
    if s.len() == 0 {
        0
    } else {
        byte_sum(s.drop_last()) + s.last()
    }
}

proof fn lemma_byte_sum(b: Seq<u8>, n: nat)
    requires
        b.len() == 512,
        n <= 512,
    ensures
        n <= 148 ==> unsigned_sum(b, n) == byte_sum(b.take(n as int)),
        148 <= n <= 156 ==> unsigned_sum(b, n) == byte_sum(b.take(148)) + 32 * (n - 148),
        156 <= n ==> unsigned_sum(b, n) == byte_sum(b.take(148)) + 256 + byte_sum(b.subrange(156, n as int)),
        (forall|i: int| 0 <= i < 512 ==> #[trigger] b[i] < 0x80) ==> signed_sum(b, n) == unsigned_sum(b, n),
    decreases n,
{
    if n > 0 {
        lemma_byte_sum(b, (n - 1) as nat);
        assert(b.take(n as int).drop_last() =~= b.take(n - 1));
        if n > 156 {
            assert(b.subrange(156, n as int).drop_last() =~= b.subrange(156, n - 1));
        }
    }
}

/// A header is taken for one if its checksum is the sum of its bytes, with the checksum's own
/// eight as spaces; a header of text only then.
pub proof fn law_checksums_are_sums(b: Seq<u8>)
    requires
        b.len() == 512,
    ensures
        ({
            let sum = byte_sum(b.take(148)) + 256 + byte_sum(b.subrange(156, 512));
            let stored = number_of(b.subrange(148, 156));
            &&& stored is Some && stored->0 == sum ==> sum_ok(b)
            &&& (forall|i: int| 0 <= i < 512 ==> #[trigger] b[i] < 0x80) && sum_ok(b) ==> stored is Some && stored->0
                == sum
        }),
{
    lemma_byte_sum(b, 512);
}

/// A regular file that is not empty is found where its header ends, with the size that the header
/// says.
pub proof fn law_plain_files_are_found(all: Seq<u8>, at: int, n: u64)
    requires
        0 <= at,
        at + 512 <= all.len(),
        sum_ok(all.subrange(at, at + 512)),
        !all_zero(all.subrange(at, at + 512)),
        all[at + 156] == 0x30,
        number_of(all.subrange(at + 124, at + 136)) == Some(n),
        n > 0,
    ensures
        first_from(all, at, no_pax()) matches Ok(f) && {
            &&& f.at == at + 512
            &&& f.size == n
            &&& f.map == seq![Extent { start: 0, len: n }]
        },
{
    assert(all.subrange(at, at + 512)[156] == all[at + 156]);
}

/// A directory, a link or a long name is passed over, with its data and what fills that up to
/// whole blocks.
pub proof fn law_others_are_passed_over(all: Seq<u8>, at: int, n: u64, blocks: int, pax: Records)
    requires
        0 <= at,
        at + 512 + blocks * 512 <= all.len() <= u64::MAX,
        sum_ok(all.subrange(at, at + 512)),
        !all_zero(all.subrange(at, at + 512)),
        all[at + 156] == 0x35 || all[at + 156] == 0x31 || all[at + 156] == 0x32 || all[at + 156] == 0x4b || all[at
            + 156] == 0x4c,
        pax.size is None,
        number_of(all.subrange(at + 124, at + 136)) == Some(n),
        (blocks - 1) * 512 < n <= blocks * 512,
    ensures
        first_from(all, at, pax) == first_from(all, at + 512 + blocks * 512, no_pax()),
{
    assert(all.subrange(at, at + 512)[156] == all[at + 156]);
    assert((n + 511) / 512 == blocks);
}

} // verus!
