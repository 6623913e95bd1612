//! LZ4 (.lz4): frames one after another (linked or independent blocks, with their
//! checksums verified), skippable frames, and the legacy format (`lz4 -l`, the Linux
//! kernel's). Blocks are decoded by lz4_flex.

use vstd::arithmetic::power2::{lemma2_to64, pow2};
use vstd::prelude::*;
use vstd::slice::*;
use vstd::string::*;
use crate::engine::formats::source::{
    bad, bytes_at, law_fields_are_numbers, le32, le32_at, le64, le64_at, le_value, push_bytes, unsupported, Layers,
    Loaded, Source, Stop,
};
use crate::error::{bad_fault, unsupported_fault, Error, Fault};

verus! {

pub const MAGIC: u32 = 0x184d_2204;

pub const LEGACY: u32 = 0x184c_2102;

pub const LEGACY_BLOCK: usize = 0x80_0000;

/// The most a legacy block may take compressed: 8 MiB, a 255th of that and 16 bytes.
pub const LEGACY_PACKED: usize = 0x80_0000 + 32896 + 16;

/// How far back linked blocks reach.
pub const WINDOW: usize = 0x1_0000;

// ---- xxHash32 -----------------------------------------------------------------------------

pub const P1: u32 = 0x9e37_79b1;

pub const P2: u32 = 0x85eb_ca77;

pub const P3: u32 = 0xc2b2_ae3d;

pub const P4: u32 = 0x27d4_eb2f;

pub const P5: u32 = 0x1656_67b1;

/// `x` turned left by `n` bits.
pub open spec fn turned(x: u32, n: u32) -> u32 {
    (x << n) | (x >> (32 - n) as u32)
}

fn turn(x: u32, n: u32) -> (r: u32)
    requires
        0 < n < 32,
    ensures
        r == turned(x, n),
{
    (x << n) | (x >> (32 - n))
}

/// What a lane of input does to an accumulator.
pub open spec fn xx_round(acc: u32, lane: u32) -> u32 {
    turned(acc.wrapping_add(lane.wrapping_mul(P2)), 13).wrapping_mul(P1)
}

/// The accumulator of lane `k` (of four) after `n` stripes of 16 bytes.
pub open spec fn xx_lane(data: Seq<u8>, k: int, n: nat) -> u32
    decreases n,
{
    if n == 0 {
        if k == 0 {
            P1.wrapping_add(P2)
        } else if k == 1 {
            P2
        } else if k == 2 {
            0
        } else {
            0u32.wrapping_sub(P1)
        }
    } else {
        xx_round(xx_lane(data, k, (n - 1) as nat), le32_at(data, 16 * (n - 1) + 4 * k))
    }
}

/// The whole words of `rest` from `at` on, mixed into `h`, then its last bytes.
pub open spec fn xx_tail(h: u32, rest: Seq<u8>, at: int) -> u32
    decreases rest.len() - at,
{
    if at + 4 <= rest.len() {
        xx_tail(
            turned(h.wrapping_add(le32_at(rest, at).wrapping_mul(P3)), 17).wrapping_mul(P4),
            rest,
            at + 4,
        )
    } else if at < rest.len() {
        xx_tail(turned(h.wrapping_add((rest[at] as u32).wrapping_mul(P5)), 11).wrapping_mul(P1), rest, at + 1)
    } else {
        h
    }
}

/// The final mixing.
pub open spec fn xx_mix(h: u32) -> u32 {
    let a = (h ^ (h >> 15)).wrapping_mul(P2);
    let b = (a ^ (a >> 13)).wrapping_mul(P3);
    b ^ (b >> 16)
}

/// xxHash32 of `data`, with seed 0.
pub open spec fn xxh32_of(data: Seq<u8>) -> u32 {
    let n = data.len() / 16;
    let h = if data.len() >= 16 {
        turned(xx_lane(data, 0, n), 1).wrapping_add(turned(xx_lane(data, 1, n), 7)).wrapping_add(
            turned(xx_lane(data, 2, n), 12),
        ).wrapping_add(turned(xx_lane(data, 3, n), 18))
    } else {
        P5
    };
    xx_mix(xx_tail(h.wrapping_add(data.len() as u32), data.skip(16 * n as int), 0))
}

/// xxHash32 with seed 0, as LZ4 frames use it, over data that comes in parts.
pub struct Xxh32 {
    pub v0: u32,
    pub v1: u32,
    pub v2: u32,
    pub v3: u32,
    /// What does not fill a stripe yet.
    pub rest: Vec<u8>,
    pub total: u64,
    /// All that was put in.
    pub seen: Ghost<Seq<u8>>,
}

proof fn lemma_lane_prefix(a: Seq<u8>, b: Seq<u8>, k: int, n: nat)
    requires
        0 <= k < 4,
        16 * n <= a.len() <= b.len(),
        b.take(a.len() as int) == a,
    ensures
        xx_lane(a, k, n) == xx_lane(b, k, n),
    decreases n,
{
    if n > 0 {
        lemma_lane_prefix(a, b, k, (n - 1) as nat);
        let at = 16 * (n - 1) + 4 * k;
        assert(a[at] == b.take(a.len() as int)[at]);
        assert(a[at + 1] == b.take(a.len() as int)[at + 1]);
        assert(a[at + 2] == b.take(a.len() as int)[at + 2]);
        assert(a[at + 3] == b.take(a.len() as int)[at + 3]);
    }
}

impl Xxh32 {
    pub open spec fn wf(&self) -> bool {
        let n = self.seen@.len() / 16;
        &&& self.total == self.seen@.len()
        &&& self.rest@ == self.seen@.skip(16 * n as int)
        &&& self.v0 == xx_lane(self.seen@, 0, n)
        &&& self.v1 == xx_lane(self.seen@, 1, n)
        &&& self.v2 == xx_lane(self.seen@, 2, n)
        &&& self.v3 == xx_lane(self.seen@, 3, n)
    }

    pub fn new() -> (h: Xxh32)
        ensures
            h.wf(),
            h.seen@ == Seq::<u8>::empty(),
    {
        let h: Xxh32 = Xxh32 {
            v0: P1.wrapping_add(P2),
            v1: P2,
            v2: 0,
            v3: 0u32.wrapping_sub(P1),
            rest: Vec::new(),
            total: 0,
            seen: Ghost(Seq::empty()),
        };
        assert(h.rest@ == h.seen@.skip(0));
        h
    }

    fn round(acc: u32, lane: u32) -> (r: u32)
        ensures
            r == xx_round(acc, lane),
    {
        turn(acc.wrapping_add(lane.wrapping_mul(P2)), 13).wrapping_mul(P1)
    }

    fn push(&mut self, b: u8)
        requires
            old(self).wf(),
            old(self).seen@.len() < u64::MAX,
        ensures
            final(self).wf(),
            final(self).seen@ == old(self).seen@.push(b),
    {
        let ghost before = self.seen@;
        let ghost after = before.push(b);
        let ghost n = before.len() / 16;
        proof {
            assert(after.take(before.len() as int) == before);
            lemma_lane_prefix(before, after, 0, n);
            lemma_lane_prefix(before, after, 1, n);
            lemma_lane_prefix(before, after, 2, n);
            lemma_lane_prefix(before, after, 3, n);
        }
        self.rest.push(b);
        self.total = self.total + 1;
        self.seen = Ghost(after);
        assert(self.rest@ == after.skip(16 * n as int));
        if self.rest.len() == 16 {
            let s: &[u8] = self.rest.as_slice();
            let (a, c, d, e): (u32, u32, u32, u32) = (le32(s, 0), le32(s, 4), le32(s, 8), le32(s, 12));
            proof {
                assert(after.len() == 16 * (n + 1));
                assert(after.len() / 16 == n + 1);
                let r = after.skip(16 * n as int);
                assert(le32_at(r, 0) == le32_at(after, 16 * n as int + 0));
                assert(le32_at(r, 4) == le32_at(after, 16 * n as int + 4));
                assert(le32_at(r, 8) == le32_at(after, 16 * n as int + 8));
                assert(le32_at(r, 12) == le32_at(after, 16 * n as int + 12));
                assert(after.skip(16 * (n + 1) as int) == Seq::<u8>::empty());
            }
            self.v0 = Self::round(self.v0, a);
            self.v1 = Self::round(self.v1, c);
            self.v2 = Self::round(self.v2, d);
            self.v3 = Self::round(self.v3, e);
            self.rest = Vec::new();
        } else {
            assert(after.len() / 16 == n);
        }
    }

    pub fn update(&mut self, data: &[u8])
        requires
            old(self).wf(),
            old(self).seen@.len() + data@.len() <= u64::MAX,
        ensures
            final(self).wf(),
            final(self).seen@ == old(self).seen@ + data@,
    {
        let mut i: usize = 0;
        proof { assert(old(self).seen@ + data@.take(0) == old(self).seen@); }
        while i < data.len()
            invariant
                self.wf(),
                i <= data@.len(),
                self.seen@ == old(self).seen@ + data@.take(i as int),
                old(self).seen@.len() + data@.len() <= u64::MAX,
            decreases data@.len() - i,
        {
            self.push(data[i]);
            proof {
                assert(old(self).seen@ + data@.take(i + 1) == (old(self).seen@ + data@.take(i as int)).push(
                    data@[i as int],
                ));
            }
            i = i + 1;
        }
        proof { assert(data@.take(data@.len() as int) == data@); }
    }

    pub fn digest(&self) -> (r: u32)
        requires
            self.wf(),
        ensures
            r == xxh32_of(self.seen@),
    {
        let mut h: u32 = if self.total >= 16 {
            turn(self.v0, 1).wrapping_add(turn(self.v1, 7)).wrapping_add(turn(self.v2, 12)).wrapping_add(
                turn(self.v3, 18),
            )
        } else {
            P5
        };
        h = h.wrapping_add(self.total as u32);
        let ghost start = h;
        let rest: &[u8] = self.rest.as_slice();
        let mut at: usize = 0;
        while at < rest.len()
            invariant
                at <= rest@.len(),
                rest@.len() == rest.len(),
                xx_tail(start, rest@, 0) == xx_tail(h, rest@, at as int),
            decreases rest@.len() - at,
        {
            if rest.len() - at >= 4 {
                h = turn(h.wrapping_add(le32(rest, at).wrapping_mul(P3)), 17).wrapping_mul(P4);
                at = at + 4;
            } else {
                h = turn(h.wrapping_add((rest[at] as u32).wrapping_mul(P5)), 11).wrapping_mul(P1);
                at = at + 1;
            }
        }
        h = (h ^ (h >> 15)).wrapping_mul(P2);
        h = (h ^ (h >> 13)).wrapping_mul(P3);
        h ^ (h >> 16)
    }
}

/// xxHash32 of `data`, with seed 0.
pub fn xxh32(data: &[u8]) -> (r: u32)
    ensures
        r == xxh32_of(data@),
{
    let mut h: Xxh32 = Xxh32::new();
    proof {
        assert(data.len() <= usize::MAX);
        assert(Seq::<u8>::empty() + data@ == data@);
    }
    h.update(data);
    h.digest()
}

// ---- Frame headers ------------------------------------------------------------------------

pub open spec fn is_skippable(magic: u32) -> bool {
    magic & 0xffff_fff0 == 0x184d_2a50
}

fn skippable(magic: u32) -> (r: bool)
    ensures
        r == is_skippable(magic),
{
    magic & 0xffff_fff0 == 0x184d_2a50
}

/// What a frame's descriptor says.
#[derive(Clone, Copy, Debug, PartialEq, Eq, Structural)]
pub struct Frame {
    pub block_max: usize,
    pub linked: bool,
    pub block_checksum: bool,
    pub content_checksum: bool,
    pub content_size: Option<u64>,
    /// Bytes of the frame descriptor (including its checksum byte).
    pub len: usize,
}

/// The most a block of a frame holds, by the descriptor's second byte.
pub open spec fn block_size(bd: u8) -> usize {
    if bd >> 4 == 4 {
        0x1_0000
    } else if bd >> 4 == 5 {
        0x4_0000
    } else if bd >> 4 == 6 {
        0x10_0000
    } else {
        0x40_0000
    }
}

/// Bytes of a descriptor besides the first two and the checksum, by its first byte.
pub open spec fn optional_len(flg: u8) -> int {
    (if flg & 8 != 0 {
        8int
    } else {
        0
    }) + if flg & 1 != 0 {
        4int
    } else {
        0
    }
}

/// The frame that a descriptor (FLG, BD, optional content size and dictionary ID, header
/// checksum) at the start of `b` describes.
pub open spec fn frame_of(b: Seq<u8>) -> Result<Frame, Fault> {
    let damaged = bad_fault("the LZ4 frame header is damaged"@);
    let (flg, bd) = (b[0], b[1]);
    let len = 2 + optional_len(flg);
    if b.len() < 3 || flg >> 6 != 1 || flg & 2 != 0 || bd & 0x8f != 0 || bd >> 4 < 4 {
        Err(damaged)
    } else if b.len() < len + 1 || (xxh32_of(b.take(len)) >> 8) as u8 != b[len] {
        Err(damaged)
    } else if flg & 1 != 0 {
        Err(unsupported_fault("this LZ4 file needs a separate dictionary, which DD-GUI doesn't support"@))
    } else {
        Ok(
            Frame {
                block_max: block_size(bd),
                linked: flg & 0x20 == 0,
                block_checksum: flg & 0x10 != 0,
                content_checksum: flg & 4 != 0,
                content_size: if flg & 8 != 0 {
                    Some(le64_at(b, 2))
                } else {
                    None
                },
                len: (len + 1) as usize,
            },
        )
    }
}

fn optional(flg: u8) -> (n: usize)
    ensures
        n == optional_len(flg),
        n <= 12,
{
    let a: usize = if flg & 8 != 0 {
        8
    } else {
        0
    };
    let b: usize = if flg & 1 != 0 {
        4
    } else {
        0
    };
    a + b
}

/// Parses a frame descriptor from the bytes after the magic number.
pub fn descriptor(b: &[u8]) -> (r: Result<Frame, Error>)
    ensures
        crate::error::gives(r, frame_of(b@)),
{
    if b.len() < 3 {
        return Err(bad("the LZ4 frame header is damaged"));
    }
    let (flg, bd): (u8, u8) = (b[0], b[1]);
    if flg >> 6 != 1 || flg & 2 != 0 || bd & 0x8f != 0 || bd >> 4 < 4 {
        return Err(bad("the LZ4 frame header is damaged"));
    }
    let len: usize = 2 + optional(flg);
    if b.len() < len + 1 {
        return Err(bad("the LZ4 frame header is damaged"));
    }
    let fields: &[u8] = slice_subrange(b, 0, len);
    assert(fields@ == b@.take(len as int));
    #[verifier::truncate]
    let check: u8 = (xxh32(fields) >> 8) as u8;
    if check != b[len] {
        return Err(bad("the LZ4 frame header is damaged"));
    }
    if flg & 1 != 0 {
        return Err(unsupported("this LZ4 file needs a separate dictionary, which DD-GUI doesn't support"));
    }
    let block_max: usize = if bd >> 4 == 4 {
        0x1_0000
    } else if bd >> 4 == 5 {
        0x4_0000
    } else if bd >> 4 == 6 {
        0x10_0000
    } else {
        0x40_0000
    };
    Ok(
        Frame {
            block_max,
            linked: flg & 0x20 == 0,
            block_checksum: flg & 0x10 != 0,
            content_checksum: flg & 4 != 0,
            content_size: if flg & 8 != 0 {
                Some(le64(b, 2))
            } else {
                None
            },
            len: len + 1,
        },
    )
}

// ---- Blocks -------------------------------------------------------------------------------

/// What lz4_flex makes of a block of at most `max` bytes on its own: the data, or why not.
pub uninterp spec fn lz4_block(packed: Seq<u8>, max: nat) -> Result<Seq<u8>, Seq<char>>;

/// What lz4_flex makes of such a block after the data in `before`.
pub uninterp spec fn lz4_linked_block(packed: Seq<u8>, max: nat, before: Seq<u8>) -> Result<Seq<u8>, Seq<char>>;

/// `lz4_flex::block::decompress_into` with an output of `max` bytes: the bytes it wrote (no
/// more than fit there), or its error in words.
#[verifier::external_body]
fn unpack(packed: &[u8], max: usize) -> (r: Result<Vec<u8>, String>)
    ensures
        match (r, lz4_block(packed@, max as nat)) {
            (Ok(v), Ok(s)) => v@ == s && s.len() <= max,
            (Err(e), Err(s)) => e@ == s,
            _ => false,
        },
{
    let mut out = vec![0u8; max];
    let n = lz4_flex::block::decompress_into(packed, &mut out).map_err(|e| e.to_string())?;
    out.truncate(n);
    Ok(out)
}

/// `lz4_flex::block::decompress_into_with_dict`, in the same way.
#[verifier::external_body]
fn unpack_linked(packed: &[u8], max: usize, before: &[u8]) -> (r: Result<Vec<u8>, String>)
    ensures
        match (r, lz4_linked_block(packed@, max as nat, before@)) {
            (Ok(v), Ok(s)) => v@ == s && s.len() <= max,
            (Err(e), Err(s)) => e@ == s,
            _ => false,
        },
{
    let mut out = vec![0u8; max];
    let n = lz4_flex::block::decompress_into_with_dict(packed, &mut out, before).map_err(|e| e.to_string())?;
    out.truncate(n);
    Ok(out)
}

/// The last 64 KiB (or less) of what was written.
pub open spec fn last_window(s: Seq<u8>) -> Seq<u8> {
    if s.len() <= WINDOW {
        s
    } else {
        s.skip(s.len() - WINDOW)
    }
}

/// Keeps the last 64 KiB of output.
fn remember(window: &mut Vec<u8>, out: &[u8])
    requires
        old(window)@.len() <= WINDOW,
    ensures
        final(window)@ == last_window(old(window)@ + out@),
        final(window)@.len() <= WINDOW,
{
    let keep: usize = if out.len() >= WINDOW {
        0
    } else if WINDOW - out.len() <= window.len() {
        WINDOW - out.len()
    } else {
        window.len()
    };
    let from: usize = if out.len() >= WINDOW {
        out.len() - WINDOW
    } else {
        0
    };
    let mut new: Vec<u8> = slice_to_vec(slice_subrange(window.as_slice(), window.len() - keep, window.len()));
    let ghost kept = new@;
    let mut i: usize = from;
    while i < out.len()
        invariant
            from <= i <= out.len(),
            new@ == kept + out@.subrange(from as int, i as int),
        decreases out.len() - i,
    {
        new.push(out[i]);
        i = i + 1;
    }
    proof { assert(new@ == last_window(old(window)@ + out@)); }
    *window = new;
}

// ---- The decoder --------------------------------------------------------------------------

pub enum State {
    /// Before a frame (or at the end); maybe with a magic number that was already taken.
    Between { next_magic: Option<u32> },
    Frame { frame: Frame, hash: Xxh32, produced: u64 },
    Legacy,
}

/// An LZ4 decoder, fed with its input as it comes.
pub struct Lz4 {
    pub state: State,
    /// Was there a frame already?
    pub started: bool,
    /// The last 64 KiB of output, for linked blocks.
    pub window: Vec<u8>,
}

/// Where in the data a decoder is.
pub ghost enum Place {
    Between { next_magic: Option<u32> },
    /// In a frame, after so many bytes; `hashed` is what its checksum is over.
    Frame { frame: Frame, hashed: Seq<u8>, produced: nat },
    Legacy,
}

/// What a decoder knows.
pub ghost struct Decoder {
    pub place: Place,
    pub started: bool,
    pub window: Seq<u8>,
}

impl View for Lz4 {
    type V = Decoder;

    open spec fn view(&self) -> Decoder {
        Decoder {
            place: match self.state {
                State::Between { next_magic } => Place::Between { next_magic },
                State::Frame { frame, hash, produced } => Place::Frame {
                    frame,
                    hashed: hash.seen@,
                    produced: produced as nat,
                },
                State::Legacy => Place::Legacy,
            },
            started: self.started,
            window: self.window@,
        }
    }
}

/// What one step of a decoder comes to.
pub ghost enum Outcome {
    /// It needs so many bytes of input, and got fewer.
    More(nat),
    Failed(Fault),
    /// The end of the data.
    End,
    /// It went on: it took `used` bytes, wants `skip` more of them passed over, and decoded
    /// a block, or none yet.
    On { next: Decoder, used: nat, skip: nat, block: Option<Seq<u8>> },
}

pub open spec fn cut_short() -> Fault {
    bad_fault("the LZ4 data is cut short"@)
}

/// Too little input: more may come, or the data is cut short.
pub open spec fn wanting(n: int, ended: bool) -> Outcome {
    if ended {
        Outcome::Failed(cut_short())
    } else {
        Outcome::More(n as nat)
    }
}

/// A step at a frame's magic number; the input goes on at `base`.
pub open spec fn at_magic(d: Decoder, magic: u32, input: Seq<u8>, base: int, ended: bool) -> Outcome {
    let extra = optional_len(input[base]);
    if magic == MAGIC {
        if input.len() < base + 3 {
            wanting(base + 3, ended)
        } else if input.len() < base + 3 + extra {
            wanting(base + 3 + extra, ended)
        } else {
            match frame_of(input.subrange(base, base + 3 + extra)) {
                Err(f) => Outcome::Failed(f),
                Ok(frame) => Outcome::On {
                    next: Decoder {
                        place: Place::Frame { frame, hashed: Seq::empty(), produced: 0 },
                        started: true,
                        window: Seq::empty(),
                    },
                    used: (base + 3 + extra) as nat,
                    skip: 0,
                    block: None,
                },
            }
        }
    } else if magic == LEGACY {
        Outcome::On {
            next: Decoder { place: Place::Legacy, started: true, ..d },
            used: base as nat,
            skip: 0,
            block: None,
        }
    } else if is_skippable(magic) {
        if input.len() < base + 4 {
            wanting(base + 4, ended)
        } else {
            Outcome::On {
                next: Decoder { place: Place::Between { next_magic: None }, ..d },
                used: (base + 4) as nat,
                skip: le32_at(input, base) as nat,
                block: None,
            }
        }
    } else if !d.started {
        Outcome::Failed(bad_fault("this isn't LZ4 data"@))
    } else {
        Outcome::Failed(bad_fault("the LZ4 file has unexpected data after a frame"@))
    }
}

/// A step at the end mark of a frame.
pub open spec fn at_end_mark(d: Decoder, frame: Frame, hashed: Seq<u8>, produced: nat, input: Seq<u8>, ended: bool) -> Outcome {
    let used = if frame.content_checksum {
        8int
    } else {
        4
    };
    if input.len() < used {
        wanting(used, ended)
    } else if frame.content_checksum && le32_at(input, 4) != xxh32_of(hashed) {
        Outcome::Failed(bad_fault("the LZ4 data is damaged (checksum mismatch)"@))
    } else if frame.content_size matches Some(size) && size != produced {
        Outcome::Failed(bad_fault("the LZ4 data is damaged (wrong length)"@))
    } else {
        Outcome::On {
            next: Decoder { place: Place::Between { next_magic: None }, ..d },
            used: used as nat,
            skip: 0,
            block: None,
        }
    }
}

/// What a block of a frame holds.
pub open spec fn block_of(packed: Seq<u8>, raw: bool, frame: Frame, window: Seq<u8>) -> Result<Seq<u8>, Seq<char>> {
    if raw {
        Ok(packed)
    } else if frame.linked && window.len() > 0 {
        lz4_linked_block(packed, frame.block_max as nat, window)
    } else {
        lz4_block(packed, frame.block_max as nat)
    }
}

pub open spec fn damaged_block(why: Seq<char>) -> Fault {
    bad_fault("the LZ4 data is damaged ("@ + why + ")"@)
}

/// A step at a block of a frame.
pub open spec fn at_block(d: Decoder, frame: Frame, hashed: Seq<u8>, produced: nat, input: Seq<u8>, ended: bool) -> Outcome {
    let size = le32_at(input, 0);
    let len = size & 0x7fff_ffff;
    let used = 4 + len + if frame.block_checksum {
        4int
    } else {
        0
    };
    let packed = input.subrange(4, 4 + len);
    if len > frame.block_max {
        Outcome::Failed(bad_fault("the LZ4 data is damaged (a block is too big)"@))
    } else if input.len() < used {
        wanting(used, ended)
    } else if frame.block_checksum && le32_at(input, 4 + len) != xxh32_of(packed) {
        Outcome::Failed(bad_fault("the LZ4 data is damaged (block checksum mismatch)"@))
    } else {
        match block_of(packed, size & 0x8000_0000 != 0, frame, d.window) {
            Err(why) => Outcome::Failed(damaged_block(why)),
            Ok(out) => Outcome::On {
                next: Decoder {
                    place: Place::Frame {
                        frame,
                        hashed: if frame.content_checksum {
                            hashed + out
                        } else {
                            hashed
                        },
                        produced: produced + out.len(),
                    },
                    window: if frame.linked {
                        last_window(d.window + out)
                    } else {
                        d.window
                    },
                    ..d
                },
                used: used as nat,
                skip: 0,
                block: Some(out),
            },
        }
    }
}

/// A step in a legacy frame.
pub open spec fn at_legacy(d: Decoder, input: Seq<u8>, ended: bool) -> Outcome {
    let len = le32_at(input, 0);
    if input.len() == 0 && ended {
        Outcome::End
    } else if input.len() < 4 {
        wanting(4, ended)
    } else if len == MAGIC || len == LEGACY || is_skippable(len) {
        Outcome::On {
            next: Decoder { place: Place::Between { next_magic: Some(len) }, ..d },
            used: 4,
            skip: 0,
            block: None,
        }
    } else if len > LEGACY_PACKED || len == 0 {
        Outcome::Failed(bad_fault("the LZ4 data is damaged (a block is too big)"@))
    } else if input.len() < 4 + len {
        wanting(4 + len, ended)
    } else {
        match lz4_block(input.subrange(4, 4 + len), LEGACY_BLOCK as nat) {
            Err(why) => Outcome::Failed(damaged_block(why)),
            Ok(out) => Outcome::On { next: d, used: (4 + len) as nat, skip: 0, block: Some(out) },
        }
    }
}

/// One step of a decoder on the input from where it stands; `ended` says that no more
/// input will come.
#[verifier::opaque]
pub open spec fn one_step(d: Decoder, input: Seq<u8>, ended: bool) -> Outcome {
    match d.place {
        Place::Between { next_magic: Some(magic) } => at_magic(d, magic, input, 0, ended),
        Place::Between { next_magic: None } => if input.len() == 0 && ended {
            if d.started {
                Outcome::End
            } else {
                Outcome::Failed(bad_fault("the LZ4 file is empty"@))
            }
        } else if input.len() < 4 {
            wanting(4, ended)
        } else {
            at_magic(d, le32_at(input, 0), input, 4, ended)
        },
        Place::Frame { frame, hashed, produced } => if input.len() < 4 {
            wanting(4, ended)
        } else if le32_at(input, 0) == 0 {
            at_end_mark(d, frame, hashed, produced, input, ended)
        } else {
            at_block(d, frame, hashed, produced, input, ended)
        },
        Place::Legacy => at_legacy(d, input, ended),
    }
}

/// What one step came to.
pub enum Step {
    /// It needs so many bytes of input from where it stands.
    More(usize),
    /// The end of the data.
    End,
    /// It took `used` bytes, and `skip` more are to be passed over.
    On { used: usize, skip: u64 },
    /// It took `used` bytes and decoded a block.
    Block { used: usize, data: Vec<u8> },
}

/// Does a step do what `o` says?
pub open spec fn step_is(before: Decoder, after: Decoder, r: Result<Step, Error>, o: Outcome) -> bool {
    match (r, o) {
        (Ok(Step::More(n)), Outcome::More(m)) => n == m && after == before,
        (Ok(Step::End), Outcome::End) => after == before,
        (Ok(Step::On { used, skip }), Outcome::On { next, used: u, skip: s, block: None }) => {
            used == u && skip == s && after == next
        },
        (Ok(Step::Block { used, data }), Outcome::On { next, used: u, skip: s, block: Some(b) }) => {
            used == u && s == 0 && data@ == b && after == next
        },
        (Err(e), Outcome::Failed(f)) => e@ == f && after == before,
        _ => false,
    }
}

fn short(n: usize, ended: bool) -> (r: Result<Step, Error>)
    ensures
        match (r, wanting(n as int, ended)) {
            (Ok(Step::More(m)), Outcome::More(k)) => m == k,
            (Err(e), Outcome::Failed(f)) => e@ == f,
            _ => false,
        },
{
    if ended {
        Err(bad("the LZ4 data is cut short"))
    } else {
        Ok(Step::More(n))
    }
}

fn damaged(why: &str) -> (e: Error)
    ensures
        e@ == damaged_block(why@),
{
    let mut s: String = "the LZ4 data is damaged (".to_owned();
    s.append(why);
    s.append(")");
    bad(s.as_str())
}

impl Lz4 {
    pub open spec fn wf(&self) -> bool {
        &&& self.window@.len() <= WINDOW
        &&& self.state matches State::Frame { frame, hash, produced } ==> {
            &&& hash.wf()
            &&& hash.seen@.len() <= produced
            &&& 0x1_0000 <= frame.block_max <= 0x40_0000
        }
    }

    /// Can another block be counted?
    pub open spec fn has_room(&self) -> bool {
        produced_in(self@) + 0x40_0000 <= u64::MAX
    }

    pub fn new() -> (d: Lz4)
        ensures
            d.wf(),
            d.has_room(),
            d@ == (Decoder { place: Place::Between { next_magic: None }, started: false, window: Seq::empty() }),
    {
        Lz4 { state: State::Between { next_magic: None }, started: false, window: Vec::new() }
    }

    fn take_magic(&mut self, magic: u32, input: &[u8], base: usize, ended: bool) -> (r: Result<Step, Error>)
        requires
            old(self).wf(),
            old(self).state is Between,
            base <= 4,
            base <= input@.len(),
        ensures
            final(self).wf(),
            final(self).has_room(),
            step_is(old(self)@, final(self)@, r, at_magic(old(self)@, magic, input@, base as int, ended)),
    {
        if magic == MAGIC {
            if input.len() - base < 3 {
                return short(base + 3, ended);
            }
            let extra: usize = optional(input[base]);
            if input.len() - base < 3 + extra {
                return short(base + 3 + extra, ended);
            }
            match descriptor(slice_subrange(input, base, base + 3 + extra)) {
                Err(e) => Err(e),
                Ok(frame) => {
                    self.window = Vec::new();
                    self.started = true;
                    self.state = State::Frame { frame, hash: Xxh32::new(), produced: 0 };
                    Ok(Step::On { used: base + 3 + extra, skip: 0 })
                },
            }
        } else if magic == LEGACY {
            self.started = true;
            self.state = State::Legacy;
            Ok(Step::On { used: base, skip: 0 })
        } else if skippable(magic) {
            if input.len() - base < 4 {
                return short(base + 4, ended);
            }
            self.state = State::Between { next_magic: None };
            Ok(Step::On { used: base + 4, skip: le32(input, base) as u64 })
        } else if !self.started {
            Err(bad("this isn't LZ4 data"))
        } else {
            Err(bad("the LZ4 file has unexpected data after a frame"))
        }
    }

    fn take_legacy(&mut self, input: &[u8], ended: bool) -> (r: Result<Step, Error>)
        requires
            old(self).wf(),
            old(self).state is Legacy,
        ensures
            final(self).wf(),
            step_is(old(self)@, final(self)@, r, at_legacy(old(self)@, input@, ended)),
    {
        if input.len() == 0 && ended {
            return Ok(Step::End);
        }
        if input.len() < 4 {
            return short(4, ended);
        }
        let len: u32 = le32(input, 0);
        if len == MAGIC || len == LEGACY || skippable(len) {
            // Another frame follows.
            self.state = State::Between { next_magic: Some(len) };
            return Ok(Step::On { used: 4, skip: 0 });
        }
        if len as u64 > LEGACY_PACKED as u64 || len == 0 {
            return Err(bad("the LZ4 data is damaged (a block is too big)"));
        }
        let len: usize = len as usize;
        if input.len() - 4 < len {
            return short(4 + len, ended);
        }
        match unpack(slice_subrange(input, 4, 4 + len), LEGACY_BLOCK) {
            Err(e) => Err(damaged(e.as_str())),
            Ok(data) => Ok(Step::Block { used: 4 + len, data }),
        }
    }

    /// The end mark of a frame, then the content checksum.
    fn take_end(&mut self, input: &[u8], ended: bool) -> (r: Result<Step, Error>)
        requires
            old(self).wf(),
            input@.len() >= 4,
            old(self).state is Frame,
        ensures
            final(self).wf(),
            old(self)@.place matches Place::Frame { frame, hashed, produced } && step_is(
                old(self)@,
                final(self)@,
                r,
                at_end_mark(old(self)@, frame, hashed, produced, input@, ended),
            ),
    {
        if let State::Frame { frame, hash, produced } = &self.state {
            let used: usize = if frame.content_checksum {
                8
            } else {
                4
            };
            if input.len() < used {
                return short(used, ended);
            }
            if frame.content_checksum && le32(input, 4) != hash.digest() {
                return Err(bad("the LZ4 data is damaged (checksum mismatch)"));
            }
            if let Some(size) = frame.content_size {
                if size != *produced {
                    return Err(bad("the LZ4 data is damaged (wrong length)"));
                }
            }
            self.state = State::Between { next_magic: None };
            return Ok(Step::On { used, skip: 0 });
        }
        Ok(Step::End)
    }

    fn take_block(&mut self, input: &[u8], ended: bool) -> (r: Result<Step, Error>)
        requires
            old(self).wf(),
            old(self).has_room(),
            input@.len() >= 4,
            old(self).state is Frame,
        ensures
            final(self).wf(),
            old(self)@.place matches Place::Frame { frame, hashed, produced } && step_is(
                old(self)@,
                final(self)@,
                r,
                at_block(old(self)@, frame, hashed, produced, input@, ended),
            ),
    {
        let size: u32 = le32(input, 0);
        let raw: bool = size & 0x8000_0000 != 0;
        let len32: u32 = size & 0x7fff_ffff;
        let frame: Frame = match &self.state {
            State::Frame { frame, .. } => *frame,
            _ => return Ok(Step::End),
        };
        if len32 as u64 > frame.block_max as u64 {
            return Err(bad("the LZ4 data is damaged (a block is too big)"));
        }
        let len: usize = len32 as usize;
        let used: usize = 4 + len + if frame.block_checksum {
            4
        } else {
            0
        };
        if input.len() < used {
            return short(used, ended);
        }
        let packed: &[u8] = slice_subrange(input, 4, 4 + len);
        if frame.block_checksum && le32(input, 4 + len) != xxh32(packed) {
            return Err(bad("the LZ4 data is damaged (block checksum mismatch)"));
        }
        let unpacked: Result<Vec<u8>, String> = if raw {
            Ok(slice_to_vec(packed))
        } else if frame.linked && self.window.len() > 0 {
            unpack_linked(packed, frame.block_max, self.window.as_slice())
        } else {
            unpack(packed, frame.block_max)
        };
        let data: Vec<u8> = match unpacked {
            Ok(data) => data,
            Err(e) => return Err(damaged(e.as_str())),
        };
        assert(data@.len() <= frame.block_max);
        if frame.linked {
            remember(&mut self.window, data.as_slice());
        }
        if let State::Frame { frame, hash, produced } = &mut self.state {
            if frame.content_checksum {
                hash.update(data.as_slice());
            }
            *produced = *produced + data.len() as u64;
        }
        Ok(Step::Block { used, data })
    }

    /// One step on the input from where the decoder stands; `ended` says that no more input
    /// will come.
    pub fn step(&mut self, input: &[u8], ended: bool) -> (r: Result<Step, Error>)
        requires
            old(self).wf(),
            old(self).has_room(),
        ensures
            final(self).wf(),
            match r {
                Ok(Step::Block { data, .. }) => produced_in(final(self)@) <= produced_in(old(self)@) + data@.len(),
                _ => final(self).has_room(),
            },
            step_is(old(self)@, final(self)@, r, one_step(old(self)@, input@, ended)),
    {
        proof { lemma_step_counts(self@, input@, ended); }
        reveal(one_step);
        let magic: Option<u32> = match &self.state {
            State::Legacy => return self.take_legacy(input, ended),
            State::Frame { .. } => {
                if input.len() < 4 {
                    return short(4, ended);
                }
                return if le32(input, 0) == 0 {
                    self.take_end(input, ended)
                } else {
                    self.take_block(input, ended)
                };
            },
            State::Between { next_magic } => *next_magic,
        };
        match magic {
            Some(magic) => self.take_magic(magic, input, 0, ended),
            None => {
                if input.len() == 0 && ended {
                    return if self.started {
                        Ok(Step::End)
                    } else {
                        Err(bad("the LZ4 file is empty"))
                    };
                }
                if input.len() < 4 {
                    return short(4, ended);
                }
                self.take_magic(le32(input, 0), input, 4, ended)
            },
        }
    }

    /// The next block of the data that goes on with `rest` (all that is left of it) and how
    /// many bytes it took; no block at the end of the data.
    pub fn next_block(&mut self, rest: &[u8]) -> (r: Result<(Option<Vec<u8>>, usize), Error>)
        requires
            old(self).wf(),
            old(self).has_room(),
        ensures
            final(self).wf(),
            match r {
                Ok((Some(d), _)) => produced_in(final(self)@) <= produced_in(old(self)@) + d@.len(),
                _ => final(self).has_room(),
            },
            match (r, next_of(old(self)@, rest@)) {
                (Ok((data, used)), Ok((next, block, n))) => {
                    &&& final(self)@ == next
                    &&& used == n <= rest@.len()
                    &&& match (data, block) {
                        (Some(d), Some(b)) => d@ == b,
                        (None, None) => true,
                        _ => false,
                    }
                },
                (Err(e), Err(f)) => e@ == f,
                _ => false,
            },
    {
        let mut at: usize = 0;
        let ghost all = next_of(self@, rest@);
        proof {
            assert(rest@.skip(0) == rest@);
            lemma_produced(self@, rest@);
        }
        loop
            invariant
                self.wf(),
                self.has_room(),
                at <= rest@.len(),
                match next_of(self@, rest@.skip(at as int)) {
                    Ok((next, block, n)) => all == Ok::<_, Fault>((next, block, (at + n) as nat)),
                    Err(f) => all == Err::<(Decoder, Option<Seq<u8>>, nat), Fault>(f),
                },
                all == next_of(old(self)@, rest@),
                all matches Ok((next, Some(b), _)) ==> produced_in(next) <= produced_in(old(self)@) + b.len(),
            decreases rest@.len() - at, waits(self@),
        {
            let input: &[u8] = slice_subrange(rest, at, rest.len());
            assert(input@ == rest@.skip(at as int));
            proof { lemma_step_moves(self@, input@); }
            match self.step(input, true) {
                Err(e) => return Err(e),
                Ok(Step::More(_)) => return Err(bad("the LZ4 data is cut short")),
                Ok(Step::End) => return Ok((None, at)),
                Ok(Step::Block { used, data }) => return Ok((Some(data), at + used)),
                Ok(Step::On { used, skip }) => {
                    if skip > (rest.len() - at - used) as u64 {
                        return Err(bad("the LZ4 data is cut short"));
                    }
                    proof {
                        assert(rest@.skip(at as int).skip(used + skip) == rest@.skip(at + used + skip));
                    }
                    at = at + used + skip as usize;
                },
            }
        }
    }
}

/// Is a magic number waiting that was already taken?
pub open spec fn waits(d: Decoder) -> nat {
    if d.place matches Place::Between { next_magic: Some(_) } {
        1
    } else {
        0
    }
}

/// The next block of the data that goes on with `rest`, the decoder after it and how many
/// bytes it took; no block at the end of the data.
pub open spec fn next_of(d: Decoder, rest: Seq<u8>) -> Result<(Decoder, Option<Seq<u8>>, nat), Fault>
    decreases rest.len(), waits(d),
    via next_of_ends
{
    match one_step(d, rest, true) {
        Outcome::More(_) => Err(cut_short()),
        Outcome::Failed(f) => Err(f),
        Outcome::End => Ok((d, None, 0)),
        Outcome::On { next, used, skip, block } => match block {
            Some(b) => Ok((next, Some(b), used)),
            None => if used + skip > rest.len() {
                Err(cut_short())
            } else {
                match next_of(next, rest.skip((used + skip) as int)) {
                    Ok((e, b, n)) => Ok((e, b, used + skip + n)),
                    Err(f) => Err(f),
                }
            },
        },
    }
}

proof fn lemma_step_counts(d: Decoder, input: Seq<u8>, ended: bool)
    ensures
        one_step(d, input, ended) matches Outcome::On { next, block, .. } ==> match block {
            Some(b) => produced_in(next) <= produced_in(d) + b.len(),
            None => produced_in(next) == 0,
        },
{
    reveal(one_step);
}

proof fn lemma_step_moves(d: Decoder, rest: Seq<u8>)
    ensures
        one_step(d, rest, true) matches Outcome::On { next, used, skip, block } ==> {
            &&& used <= rest.len()
            &&& used > 0 || waits(next) < waits(d)
        },
        !(one_step(d, rest, true) is More),
{
    reveal(one_step);
}

#[via_fn]
proof fn next_of_ends(d: Decoder, rest: Seq<u8>) {
    lemma_step_moves(d, rest);
}

// ---- All of it -----------------------------------------------------------------------------

/// How much of its frame a decoder has decoded.
pub open spec fn produced_in(d: Decoder) -> nat {
    match d.place {
        Place::Frame { produced, .. } => produced,
        _ => 0,
    }
}

proof fn lemma_produced(d: Decoder, rest: Seq<u8>)
    ensures
        next_of(d, rest) matches Ok((next, block, n)) ==> {
            &&& n <= rest.len()
            &&& block matches Some(b) ==> n > 0 && produced_in(next) <= produced_in(d) + b.len()
        },
    decreases rest.len(), waits(d),
{
    reveal(one_step);
    lemma_step_moves(d, rest);
    if let Outcome::On { next, used, skip, block } = one_step(d, rest, true) {
        if block is None && used + skip <= rest.len() {
            lemma_produced(next, rest.skip((used + skip) as int));
        }
    }
}

/// What the data that goes on with `rest` holds, up to `most` bytes.
pub open spec fn contents_of(d: Decoder, rest: Seq<u8>, most: nat) -> Result<Seq<u8>, Fault>
    decreases rest.len(),
    via contents_of_ends
{
    if most == 0 {
        Ok(Seq::empty())
    } else {
        match next_of(d, rest) {
            Err(f) => Err(f),
            Ok((_, None, _)) => Ok(Seq::empty()),
            Ok((next, Some(b), n)) => if b.len() >= most {
                Ok(b.take(most as int))
            } else {
                match contents_of(next, rest.skip(n as int), (most - b.len()) as nat) {
                    Ok(more) => Ok(b + more),
                    Err(f) => Err(f),
                }
            },
        }
    }
}

#[via_fn]
proof fn contents_of_ends(d: Decoder, rest: Seq<u8>, most: nat) {
    lemma_produced(d, rest);
}

/// A decoder at the start of the data.
pub open spec fn fresh() -> Decoder {
    Decoder { place: Place::Between { next_magic: None }, started: false, window: Seq::empty() }
}

/// The most that is decoded in one go.
pub const MOST: u64 = 0x7fff_ffff_ffff_ffff;

/// What an LZ4 file holds, up to `most` bytes.
pub fn unlz4(file: &[u8], most: usize) -> (r: Result<Vec<u8>, Error>)
    requires
        most <= MOST,
    ensures
        match (r, contents_of(fresh(), file@, most as nat)) {
            (Ok(v), Ok(s)) => v@ == s,
            (Err(e), Err(f)) => e@ == f,
            _ => false,
        },
{
    let mut d: Lz4 = Lz4::new();
    let mut out: Vec<u8> = Vec::new();
    let mut at: usize = 0;
    let n: usize = file.len();
    let ghost all = contents_of(d@, file@, most as nat);
    proof {
        assert(file@.skip(0) =~= file@);
    }
    while out.len() < most
        invariant
            d.wf(),
            produced_in(d@) <= out@.len(),
            out@.len() <= most <= MOST,
            at <= n == file@.len(),
            all == (match contents_of(d@, file@.skip(at as int), (most - out@.len()) as nat) {
                Ok(more) => Ok::<Seq<u8>, Fault>(out@ + more),
                Err(f) => Err(f),
            }),
            all == contents_of(fresh(), file@, most as nat),
        decreases n - at,
    {
        let rest: &[u8] = slice_subrange(file, at, n);
        proof {
            assert(rest@ =~= file@.skip(at as int));
            lemma_produced(d@, rest@);
        }
        match d.next_block(rest) {
            Err(e) => {
                return Err(e);
            },
            Ok((None, _)) => {
                assert(out@ + Seq::<u8>::empty() =~= out@);
                return Ok(out);
            },
            Ok((Some(block), used)) => {
                let ghost before = out@;
                let left: usize = most - out.len();
                proof {
                    assert(rest@.skip(used as int) =~= file@.skip(at + used));
                }
                if block.len() >= left {
                    let part: Vec<u8> = bytes_at(&block, 0, left);
                    assert(part@ =~= block@.take(left as int));
                    push_bytes(&mut out, &part);
                    return Ok(out);
                }
                push_bytes(&mut out, &block);
                at = at + used;
                proof {
                    if let Ok(more) = contents_of(d@, file@.skip(at as int), (most - out@.len()) as nat) {
                        assert(before + (block@ + more) =~= (before + block@) + more);
                    }
                }
            },
        }
    }
    assert(out@ + Seq::<u8>::empty() =~= out@);
    Ok(out)
}

// ---- Looking at a file --------------------------------------------------------------------

/// What a look at part of a file comes to.
#[derive(Clone, Copy, Debug, PartialEq, Eq, Structural)]
pub enum Look {
    /// The answer.
    Is(bool),
    /// The next part to look at starts here.
    At(u64),
}

/// What the up to 32 bytes at `at` say: an LZ4 frame, a legacy one, neither, or one to skip.
pub open spec fn look_at(b: Seq<u8>, at: u64) -> Look {
    let magic = le32_at(b, 0);
    if b.len() < 8 {
        Look::Is(false)
    } else if is_skippable(magic) {
        Look::At(
            if at + 8 + le32_at(b, 4) > u64::MAX {
                u64::MAX
            } else {
                (at + 8 + le32_at(b, 4)) as u64
            },
        )
    } else if magic == MAGIC {
        Look::Is(frame_of(b.skip(4)) is Ok)
    } else if magic == LEGACY {
        Look::Is(0 < le32_at(b, 4) <= LEGACY_PACKED)
    } else {
        Look::Is(false)
    }
}

/// Is `head` the start of an LZ4 file, as far as its first number says?
pub open spec fn may_be(head: Seq<u8>) -> bool {
    let first = le32_at(head, 0);
    head.len() >= 8 && (first == MAGIC || first == LEGACY || is_skippable(first))
}

/// Can a file that starts with `head` be LZ4 at all?
pub fn maybe(head: &[u8]) -> (r: bool)
    ensures
        r == may_be(head@),
{
    let first: u32 = le32(head, 0);
    head.len() >= 8 && (first == MAGIC || first == LEGACY || skippable(first))
}

/// An LZ4 frame (after any skippable frames), or a legacy one? `b` holds up to 32 bytes of
/// the file from `at` on. At most a thousand frames get skipped.
pub fn look(b: &[u8], at: u64) -> (r: Look)
    ensures
        r == look_at(b@, at),
{
    if b.len() < 8 {
        return Look::Is(false);
    }
    let magic: u32 = le32(b, 0);
    if skippable(magic) {
        return Look::At(at.saturating_add(8 + le32(b, 4) as u64));
    }
    if magic == MAGIC {
        let rest: &[u8] = slice_subrange(b, 4, b.len());
        assert(rest@ == b@.skip(4));
        return Look::Is(descriptor(rest).is_ok());
    }
    if magic == LEGACY {
        let first: u32 = le32(b, 4);
        return Look::Is(first > 0 && first as u64 <= LEGACY_PACKED as u64);
    }
    Look::Is(false)
}

/// Is there an LZ4 frame at `at` in the file, after up to `frames` others to skip?
pub open spec fn found_from(src: Layers, file: Seq<u8>, at: u64, frames: nat) -> bool
    decreases frames,
{
    if frames == 0 {
        false
    } else {
        match src.read_upto(file, at, 32) {
            Err(_) => false,
            Ok(b) => match look_at(b, at) {
                Look::Is(r) => r,
                Look::At(next) => found_from(src, file, next, (frames - 1) as nat),
            },
        }
    }
}

/// An LZ4 frame (after any skippable frames), or a legacy one?
pub open spec fn detected(src: Layers, file: Seq<u8>, head: Seq<u8>) -> bool {
    may_be(head) && found_from(src, file, 0, 1000)
}

/// An LZ4 frame (after any skippable frames), or a legacy one.
pub fn detect(src: &Source, have: &Loaded, head: &[u8]) -> (r: Result<bool, Stop>)
    requires
        src@.wf(),
    ensures
        match r {
            Ok(b) => forall|file: Seq<u8>| #[trigger]
                have.shows(src@, file) ==> b == detected(src@, file, head@),
            Err(Stop::Failed(_)) => false,
            Err(Stop::Need { offset, len }) => have.lacks(src@, offset, len),
        },
{
    if !maybe(head) {
        return Ok(false);
    }
    let mut at: u64 = 0;
    let mut frames: u32 = 1000;
    while frames > 0
        invariant
            src@.wf(),
            frames <= 1000,
            may_be(head@),
            forall|file: Seq<u8>| #[trigger]
                have.shows(src@, file) ==> detected(src@, file, head@) == found_from(
                    src@,
                    file,
                    at,
                    frames as nat,
                ),
        decreases frames,
    {
        let b: Vec<u8> = match src.read_upto(have, at, 32) {
            Ok(b) => b,
            Err(Stop::Failed(_)) => {
                return Ok(false);
            },
            Err(Stop::Need { offset, len }) => {
                return Err(Stop::Need { offset, len });
            },
        };
        match look(&b, at) {
            Look::Is(r) => {
                return Ok(r);
            },
            Look::At(next) => {
                at = next;
            },
        }
        frames = frames - 1;
    }
    Ok(false)
}

/// A walk over the frames and blocks of a file, for the size of what they hold.
#[derive(Clone, Copy, Debug)]
pub struct SizeWalk {
    /// Where the next thing to look at starts.
    pub at: u64,
    /// What the frames so far hold.
    pub total: u64,
    pub steps: u32,
    /// Inside a frame: whether its content and its blocks have checksums.
    pub frame: Option<(bool, bool)>,
}

/// `a + b`, when it can be counted.
pub open spec fn sum_of(a: u64, b: int) -> Option<u64> {
    if a + b > u64::MAX {
        None
    } else {
        Some((a + b) as u64)
    }
}

/// The walk after a look at the bytes where it stands; none when the size stays unknown.
pub open spec fn walked(w: SizeWalk, b: Seq<u8>) -> Option<SizeWalk> {
    let w = SizeWalk { steps: (w.steps + 1) as u32, ..w };
    if w.steps > 1_000_000 {
        None
    } else {
        match w.frame {
            None => {
                let magic = le32_at(b, 0);
                if is_skippable(magic) {
                    match sum_of(w.at, 8 + le32_at(b, 4)) {
                        Some(at) => Some(SizeWalk { at, ..w }),
                        None => None,
                    }
                } else if magic != MAGIC || b.len() < 4 {
                    None
                } else {
                    match frame_of(b.skip(4)) {
                        Ok(f) => match f.content_size {
                            Some(size) => match (sum_of(w.total, size as int), sum_of(w.at, 4 + f.len)) {
                                (Some(total), Some(at)) => Some(
                                    SizeWalk { at, total, frame: Some((f.content_checksum, f.block_checksum)), ..w },
                                ),
                                _ => None,
                            },
                            None => None,
                        },
                        Err(_) => None,
                    }
                }
            },
            Some((content, block)) => {
                let v = le32_at(b, 0);
                let step = 4 + if v == 0 {
                    if content {
                        4int
                    } else {
                        0
                    }
                } else {
                    (v & 0x7fff_ffff) + if block {
                        4int
                    } else {
                        0
                    }
                };
                if b.len() < 4 {
                    None
                } else {
                    match sum_of(w.at, step) {
                        Some(at) => Some(
                            SizeWalk {
                                at,
                                frame: if v == 0 {
                                    None
                                } else {
                                    w.frame
                                },
                                ..w
                            },
                        ),
                        None => None,
                    }
                }
            },
        }
    }
}

impl SizeWalk {
    pub fn new() -> (w: SizeWalk)
        ensures
            w == (SizeWalk { at: 0, total: 0, steps: 0, frame: None }),
    {
        SizeWalk { at: 0, total: 0, steps: 0, frame: None }
    }

    /// How many bytes (up to the end of the file) to look at.
    pub fn wants(&self) -> (n: usize)
        ensures
            n == if self.frame is None {
                19int
            } else {
                4
            },
    {
        match self.frame {
            None => 19,
            Some(_) => 4,
        }
    }

    /// Is the walk of a file of `size` bytes over?
    pub fn done(&self, size: u64) -> (r: bool)
        ensures
            r == (self.at >= size && self.frame is None),
    {
        self.at >= size && self.frame.is_none()
    }
}

/// The walk for the decoded size of a whole file, after a look at `b`, the bytes where it
/// stands. None when a frame doesn't record its content size (or when there are too many
/// blocks to walk quickly).
pub fn total_size(walk: SizeWalk, b: &[u8]) -> (r: Option<SizeWalk>)
    requires
        walk.steps <= 1_000_000,
    ensures
        r == walked(walk, b@),
        r matches Some(w) ==> w.steps <= 1_000_000,
{
    let mut w: SizeWalk = walk;
    w.steps = w.steps + 1;
    if w.steps > 1_000_000 {
        return None;
    }
    match w.frame {
        None => {
            let magic: u32 = le32(b, 0);
            if skippable(magic) {
                w.at = match w.at.checked_add(8 + le32(b, 4) as u64) {
                    Some(at) => at,
                    None => return None,
                };
                return Some(w);
            }
            if magic != MAGIC || b.len() < 4 {
                return None;
            }
            let rest: &[u8] = slice_subrange(b, 4, b.len());
            assert(rest@ == b@.skip(4));
            match descriptor(rest) {
                Ok(f) => match f.content_size {
                    Some(size) => match (w.total.checked_add(size), w.at.checked_add(4 + f.len as u64)) {
                        (Some(total), Some(at)) => {
                            w.total = total;
                            w.at = at;
                            w.frame = Some((f.content_checksum, f.block_checksum));
                            Some(w)
                        },
                        _ => None,
                    },
                    None => None,
                },
                Err(_) => None,
            }
        },
        Some((content, block)) => {
            if b.len() < 4 {
                return None;
            }
            let v: u32 = le32(b, 0);
            let more: u64 = if v == 0 {
                if content {
                    4
                } else {
                    0
                }
            } else {
                (v & 0x7fff_ffff) as u64 + if block {
                    4
                } else {
                    0
                }
            };
            match w.at.checked_add(4 + more) {
                Some(at) => {
                    w.at = at;
                    if v == 0 {
                        w.frame = None;
                    }
                    Some(w)
                },
                None => None,
            }
        },
    }
}

// ---- What the format says -----------------------------------------------------------------

/// A frame's descriptor is read as the format lays it out: the version and flags by their bits,
/// the block size as a power of four, and the content size, where there is one, in all its bytes.
pub proof fn law_frames_are_as_the_format_says(b: Seq<u8>)
    ensures
        frame_of(b) matches Ok(f) ==> {
            &&& b[0] / 64 == 1
            &&& f.linked <==> b[0] / 32 % 2 == 0
            &&& f.block_checksum <==> b[0] / 16 % 2 == 1
            &&& f.content_checksum <==> b[0] / 4 % 2 == 1
            &&& f.content_size is Some <==> b[0] / 8 % 2 == 1
            &&& f.content_size matches Some(n) ==> n == le_value(b.subrange(2, 10))
            &&& f.len == (if f.content_size is Some {
                11int
            } else {
                3
            })
            &&& 4 <= b[1] / 16 <= 7
            &&& f.block_max == pow2((8 + 2 * (b[1] / 16)) as nat)
        },
{
    if let Ok(f) = frame_of(b) {
        let (flg, bd) = (b[0], b[1]);
        assert(flg >> 6 == flg / 64 && (flg & 0x20 == 0) == (flg / 32 % 2 == 0) && (flg & 0x10 != 0) == (flg / 16 % 2
            == 1) && (flg & 4 != 0) == (flg / 4 % 2 == 1) && (flg & 8 != 0) == (flg / 8 % 2 == 1)) by (bit_vector);
        assert(bd & 0x8f == 0 ==> bd < 0x80 && bd >> 4 == bd / 16) by (bit_vector);
        law_fields_are_numbers(b, 2);
        lemma2_to64();
    }
}

/// The frames to skip are those of the sixteen magic numbers that are set aside for that.
pub proof fn law_skippable_frames(magic: u32)
    ensures
        is_skippable(magic) <==> 0x184d_2a50 <= magic <= 0x184d_2a5f,
{
    assert(magic & 0xffff_fff0 == 0x184d_2a50 <==> 0x184d_2a50 <= magic <= 0x184d_2a5f) by (bit_vector);
}

/// A step over a block takes its size, its data and its checksum, and gives what the data holds:
/// the data itself if the size's high bit is set. What was given adds to what the frame's end is
/// held against.
pub proof fn law_blocks_are_as_the_format_says(d: Decoder, input: Seq<u8>, ended: bool)
    requires
        d.place is Frame,
        input.len() >= 4,
        le_value(input.subrange(0, 4)) != 0,
    ensures
        one_step(d, input, ended) matches Outcome::On { next, used, skip, block } ==> {
            let size = le_value(input.subrange(0, 4));
            let len = size as int % 0x8000_0000;
            let sum = if d.place->frame.block_checksum {
                4int
            } else {
                0
            };
            &&& used == 4 + len + sum <= input.len()
            &&& skip == 0
            &&& d.place->frame.block_checksum ==> le_value(input.subrange(4 + len, 8 + len)) == xxh32_of(
                input.subrange(4, 4 + len),
            )
            &&& block is Some
            &&& size >= 0x8000_0000 ==> block == Some(input.subrange(4, 4 + len))
            &&& next.place is Frame && next.place->frame == d.place->frame
            &&& next.place->produced == d.place->produced + block->0.len()
            &&& d.place->frame.content_checksum ==> next.place->hashed == d.place->hashed + block->0
        },
{
    reveal(one_step);
    law_fields_are_numbers(input, 0);
    let size = le32_at(input, 0);
    assert(size & 0x7fff_ffff == size % 0x8000_0000 && (size & 0x8000_0000 != 0) == (size >= 0x8000_0000))
        by (bit_vector);
    law_fields_are_numbers(input, 4 + (size & 0x7fff_ffff));
}

/// A frame ends only with all it promised: the content that its checksum is of, and as much of
/// it as its size says.
pub proof fn law_frames_end_whole(d: Decoder, input: Seq<u8>, ended: bool)
    requires
        d.place is Frame,
        input.len() >= 4,
        le_value(input.subrange(0, 4)) == 0,
    ensures
        one_step(d, input, ended) matches Outcome::On { next, used, skip, block } ==> {
            &&& block is None && skip == 0
            &&& d.place->frame.content_checksum ==> used == 8 && le_value(input.subrange(4, 8)) == xxh32_of(
                d.place->hashed,
            )
            &&& !d.place->frame.content_checksum ==> used == 4
            &&& d.place->frame.content_size matches Some(n) ==> n == d.place->produced
            &&& next.place == Place::Between { next_magic: None }
        },
{
    reveal(one_step);
    law_fields_are_numbers(input, 0);
    law_fields_are_numbers(input, 4);
}

/// A walk for the size goes from frame to frame and from block to block as the decoder does.
pub proof fn law_walks_go_as_the_decoder(w: SizeWalk, d: Decoder, input: Seq<u8>)
    requires
        d.place is Frame,
        w.frame == Some((d.place->frame.content_checksum, d.place->frame.block_checksum)),
        one_step(d, input, true) is On,
    ensures
        walked(w, input) matches Some(next) ==> {
            &&& next.at == w.at + one_step(d, input, true)->used
            &&& next.total == w.total
            &&& next.frame is None <==> one_step(d, input, true)->next.place is Between
            &&& next.frame is Some ==> next.frame == w.frame
        },
{
    reveal(one_step);
}

} // verus!
