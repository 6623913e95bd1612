//! What to read and write on drives and image files: whole sectors where the system wants
//! them, and a window over a disk for readers of small pieces.

use vstd::prelude::*;
use vstd::string::*;
use crate::text::{chars, starts, starts_with};

verus! {

/// Buffers start on this boundary, and chunk sizes are multiples of it.
pub const ALIGN: usize = 4096;

/// The next multiple of `to`.
pub open spec fn up_to(n: int, to: int) -> int {
    (n + to - 1) / to * to
}

proof fn lemma_up_to(n: int, to: int)
    requires
        n >= 0,
        to > 0,
    ensures
        n <= up_to(n, to) < n + to,
        up_to(n, to) % to == 0,
        n % to == 0 ==> up_to(n, to) == n,
        up_to(n, to) == n + (if n % to == 0 {
            0
        } else {
            to - n % to
        }),
{
    let q = (n + to - 1) / to;
    assert(q * to + (n + to - 1) % to == n + to - 1) by {
        vstd::arithmetic::div_mod::lemma_fundamental_div_mod(n + to - 1, to);
        assert(to * q == q * to) by (nonlinear_arith);
    }
    assert((q * to) % to == 0) by {
        vstd::arithmetic::div_mod::lemma_mod_multiples_basic(q, to);
    }
    let k = n / to;
    assert(k * to + n % to == n) by {
        vstd::arithmetic::div_mod::lemma_fundamental_div_mod(n, to);
        assert(to * k == k * to) by (nonlinear_arith);
    }
    if n % to == 0 {
        assert(q == k) by (nonlinear_arith)
            requires
                k * to == n,
                q * to <= n + to - 1,
                q * to > n - 1,
                to > 0,
        ;
    } else {
        assert(q == k + 1) by (nonlinear_arith)
            requires
                k * to < n,
                n < k * to + to,
                q * to <= n + to - 1,
                q * to > n - 1,
                to > 0,
        ;
        assert((k + 1) * to == k * to + to) by (nonlinear_arith);
    }
}

proof fn lemma_rest(n: int, to: int)
    requires
        n >= 0,
        to > 0,
    ensures
        0 <= n % to <= n,
        0 <= n % to < to,
{
    vstd::arithmetic::div_mod::lemma_fundamental_div_mod(n, to);
    assert(0 <= to * (n / to)) by (nonlinear_arith)
        requires
            n >= 0,
            to > 0,
    ;
    vstd::arithmetic::div_mod::lemma_mod_bound(n, to);
}

pub fn round_up(n: u64, to: u64) -> (r: u64)
    requires
        to > 0,
        up_to(n as int, to as int) <= u64::MAX,
    ensures
        r == up_to(n as int, to as int),
{
    proof {
        lemma_up_to(n as int, to as int);
    }
    let rest: u64 = n % to;
    if rest == 0 {
        n
    } else {
        n + (to - rest)
    }
}

/// Is this a drive rather than a file, by its name on Windows? (`\\.\PhysicalDriveN`.)
pub fn is_drive(path: &str) -> (r: bool)
    ensures
        r == starts(path@, "\\\\.\\"@),
{
    starts_with(&chars(path), "\\\\.\\")
}

/// What to read for some bytes of a disk.
#[derive(Clone, Copy, Debug, PartialEq, Eq, Structural)]
pub struct Reading {
    pub start: u64,
    /// How much, from there.
    pub span: u64,
    /// Where in it the bytes are.
    pub at: u64,
}

pub open spec fn min(a: int, b: int) -> int {
    if a < b {
        a
    } else {
        b
    }
}

pub open spec fn max(a: int, b: int) -> int {
    if a < b {
        b
    } else {
        a
    }
}

/// How much to read at a sector's start: whole sectors, but never past the end of the drive or
/// of the buffer.
pub open spec fn whole(size: u64, sector: u64, off: u64, len: u64, room: u64) -> int {
    max(
        min(
            min(
                up_to(len as int, sector as int),
                if off <= size {
                    size - off
                } else {
                    0
                },
            ),
            room as int,
        ),
        len as int,
    )
}

pub open spec fn reading_of(sector: Option<u64>, size: u64, off: u64, len: u64, room: u64) -> Reading {
    match sector {
        None => Reading { start: off, span: len, at: 0 },
        Some(sector) => if off % sector != 0 {
            let start = off - off % sector;
            Reading {
                start: start as u64,
                span: (up_to(off + len, sector as int) - start) as u64,
                at: (off % sector) as u64,
            }
        } else {
            Reading { start: off, span: whole(size, sector, off, len, room) as u64, at: 0 }
        },
    }
}

/// What to read for `len` bytes at `off`, into a buffer with room for `room`. `sector` is set
/// when transfers have to be whole sectors at sector offsets.
pub fn reading(sector: Option<u64>, size: u64, off: u64, len: u64, room: u64) -> (r: Reading)
    requires
        len <= room,
        off + len <= u64::MAX,
        sector matches Some(s) ==> s > 0 && up_to(off + len, s as int) <= u64::MAX && up_to(len as int, s as int)
            <= u64::MAX,
    ensures
        r == reading_of(sector, size, off, len, room),
{
    match sector {
        None => Reading { start: off, span: len, at: 0 },
        Some(sector) => {
            if off % sector != 0 {
                // Rare: the whole sectors around it.
                proof {
                    lemma_rest(off as int, sector as int);
                }
                let start: u64 = off - off % sector;
                proof {
                    lemma_up_to(off + len, sector as int);
                }
                Reading { start, span: round_up(off + len, sector) - start, at: off - start }
            } else {
                let mut want: u64 = round_up(len, sector);
                let left: u64 = if off <= size {
                    size - off
                } else {
                    0
                };
                if left < want {
                    want = left;
                }
                if room < want {
                    want = room;
                }
                if want < len {
                    want = len;
                }
                Reading { start: off, span: want, at: 0 }
            }
        },
    }
}

/// A reading holds the bytes that were asked for, starts at a sector, and is whole sectors
/// wherever the drive and the buffer have them.
pub proof fn law_readings_cover(sector: Option<u64>, size: u64, off: u64, len: u64, room: u64)
    requires
        len <= room,
        off + len <= u64::MAX,
        sector matches Some(s) ==> s > 0 && up_to(off + len, s as int) <= u64::MAX && up_to(len as int, s as int)
            <= u64::MAX,
    ensures
        ({
            let r = reading_of(sector, size, off, len, room);
            &&& r.start + r.at == off
            &&& r.at + len <= r.span
            &&& sector matches Some(s) ==> r.start % s == 0
            &&& sector matches Some(s) ==> off % s != 0 ==> r.span % s == 0
            &&& sector matches Some(s) ==> off % s == 0 && off + up_to(len as int, s as int) <= size && up_to(
                len as int,
                s as int,
            ) <= room ==> r.span % s == 0
        }),
{
    if let Some(s) = sector {
        lemma_up_to(off + len, s as int);
        lemma_up_to(len as int, s as int);
        let (o, s) = (off as int, s as int);
        lemma_rest(o, s);
        assert((o - o % s) % s == 0) by {
            vstd::arithmetic::div_mod::lemma_fundamental_div_mod(o, s);
            assert(o - o % s == (o / s) * s) by (nonlinear_arith)
                requires
                    o == s * (o / s) + o % s,
            ;
            vstd::arithmetic::div_mod::lemma_mod_multiples_basic(o / s, s);
        }
        if o % s != 0 {
            let end = up_to(o + len, s);
            let start = o - o % s;
            assert((end - start) % s == 0) by {
                vstd::arithmetic::div_mod::lemma_sub_mod_noop(end, start, s);
                assert((0int - 0int) % s == 0) by (nonlinear_arith)
                    requires
                        s > 0,
                ;
            }
        }
    }
}

/// How to write some bytes: how many of them go as they are, in whole sectors. The rest is a
/// partial sector: normally just the very end of an image.
pub open spec fn body_of(sector: Option<u64>, off: u64, len: u64) -> u64 {
    match sector {
        None => len,
        Some(s) => if off % s == 0 {
            (len - len % s) as u64
        } else {
            0
        },
    }
}

pub fn body(sector: Option<u64>, off: u64, len: u64) -> (r: u64)
    requires
        sector matches Some(s) ==> s > 0,
    ensures
        r == body_of(sector, off, len),
        r <= len,
{
    match sector {
        None => len,
        Some(s) => {
            if off % s == 0 {
                proof {
                    lemma_rest(len as int, s as int);
                }
                len - len % s
            } else {
                0
            }
        },
    }
}

/// The sectors around some bytes, with them put in.
pub fn patched(whole: Vec<u8>, at: usize, data: &[u8]) -> (r: Vec<u8>)
    requires
        at + data@.len() <= whole@.len(),
    ensures
        r@ == whole@.take(at as int) + data@ + whole@.skip(at + data@.len()),
{
    let mut r: Vec<u8> = whole;
    let ghost before = r@;
    let len: usize = r.len();
    let mut i: usize = 0;
    while i < data.len()
        invariant
            i <= data@.len(),
            at + data@.len() <= len,
            len == before.len(),
            r@.len() == before.len(),
            forall|k: int| 0 <= k < before.len() ==> #[trigger] r@[k] == (if at <= k < at + i {
                data@[k - at]
            } else {
                before[k]
            }),
        decreases data@.len() - i,
    {
        r.set(at + i, data[i]);
        i = i + 1;
    }
    assert(r@ =~= before.take(at as int) + data@ + before.skip(at + data@.len()));
    r
}

/// Patching changes what it has to and nothing else.
pub proof fn law_patches_change_nothing_else(whole: Seq<u8>, at: int, data: Seq<u8>)
    requires
        0 <= at,
        at + data.len() <= whole.len(),
    ensures
        ({
            let r = whole.take(at) + data + whole.skip(at + data.len());
            &&& r.len() == whole.len()
            &&& r.subrange(at, at + data.len()) == data
            &&& forall|i: int| 0 <= i < whole.len() && !(at <= i < at + data.len()) ==> #[trigger] r[i] == whole[i]
        }),
{
    let r = whole.take(at) + data + whole.skip(at + data.len());
    assert(r.subrange(at, at + data.len()) =~= data);
}

// Transfers that the system may cut short.

/// What the system said to one call.
#[derive(Clone, Copy, Debug, PartialEq, Eq, Structural)]
pub enum Moved {
    /// So many bytes were moved.
    Bytes(u64),
    Interrupted,
}

/// What is left of a transfer.
#[derive(Clone, Copy, Debug, PartialEq, Eq, Structural)]
pub struct Transfer {
    pub off: u64,
    pub left: u64,
}

#[derive(Clone, Copy, Debug, PartialEq, Eq, Structural)]
pub enum Next {
    /// Move more: call again.
    More,
    Done,
    /// Nothing was moved: the end of what is read, or no space for what is written.
    Stuck,
}

impl Transfer {
    pub open spec fn next_of(self, moved: Moved) -> (Transfer, Next) {
        match moved {
            Moved::Interrupted => (self, Next::More),
            Moved::Bytes(n) => if n == 0 {
                (self, Next::Stuck)
            } else {
                (
                    Transfer { off: (self.off + n) as u64, left: (self.left - n) as u64 },
                    if n == self.left {
                        Next::Done
                    } else {
                        Next::More
                    },
                )
            },
        }
    }

    /// A transfer that has bytes left, after one call.
    pub fn next(&mut self, moved: Moved) -> (r: Next)
        requires
            old(self).left > 0,
            old(self).off + old(self).left <= u64::MAX,
            moved matches Moved::Bytes(n) ==> n <= old(self).left,
        ensures
            (*final(self), r) == old(self).next_of(moved),
            final(self).off + final(self).left == old(self).off + old(self).left,
            r == Next::Done <==> final(self).left == 0,
    {
        match moved {
            Moved::Interrupted => Next::More,
            Moved::Bytes(n) => {
                if n == 0 {
                    return Next::Stuck;
                }
                self.off = self.off + n;
                self.left = self.left - n;
                if self.left == 0 {
                    Next::Done
                } else {
                    Next::More
                }
            },
        }
    }
}

// Small pieces anywhere.

/// The most that is read ahead: 1 MiB.
pub const WINDOW: u64 = 0x10_0000;

/// The least: 64 KiB.
pub const LEAST: u64 = 0x1_0000;

/// A place in a disk and some bytes of it, for the analysis, which reads small pieces anywhere.
#[derive(Debug)]
pub struct DiskReader {
    pub size: u64,
    pub pos: u64,
    /// Bytes of the disk, and where they came from.
    pub buf: Vec<u8>,
    pub start: u64,
}

#[derive(Clone, Copy, Debug, PartialEq, Eq, Structural)]
pub enum SeekTo {
    Start(u64),
    End(i64),
    Current(i64),
}

impl DiskReader {
    /// Does it hold what the disk has, and nothing past its end?
    pub open spec fn reads(self, disk: Seq<u8>) -> bool {
        &&& disk.len() == self.size
        &&& self.start + self.buf@.len() <= self.size
        &&& self.buf@ == disk.subrange(self.start as int, self.start + self.buf@.len())
    }

    pub fn new(size: u64) -> (r: DiskReader)
        ensures
            r.size == size && r.pos == 0 && r.start == 0 && r.buf@.len() == 0,
            forall|disk: Seq<u8>| disk.len() == size ==> #[trigger] r.reads(disk),
    {
        let r: DiskReader = DiskReader { size, pos: 0, buf: Vec::new(), start: 0 };
        proof {
            assert forall|disk: Seq<u8>| disk.len() == size implies #[trigger] r.reads(disk) by {
                assert(r.buf@ =~= disk.subrange(0, 0));
            }
        }
        r
    }

    /// Is the place it is at in what it holds?
    pub open spec fn at_hand(self) -> bool {
        self.start <= self.pos < self.start + self.buf@.len()
    }

    /// What to read from the disk first, for `want` bytes.
    pub open spec fn fetch_of(self, want: nat) -> Option<(u64, u64)> {
        if want == 0 || self.pos >= self.size || self.at_hand() {
            None
        } else {
            let start = self.pos - self.pos % 4096;
            let rounded = up_to(self.pos % 4096 + want, 4096);
            let span = max(LEAST as int, min(rounded, WINDOW as int));
            Some((start as u64, min(span, self.size - start) as u64))
        }
    }

    /// What to read from the disk first, for `want` bytes: nothing if they are at hand, or past
    /// the end. Small reads fetch 64 KiB around them, big ones up to 1 MiB at a time.
    pub fn fetch(&self, want: usize) -> (r: Option<(u64, u64)>)
        requires
            self.start + self.buf@.len() <= self.size,
            up_to(self.pos % 4096 + want, 4096) <= u64::MAX,
        ensures
            r == self.fetch_of(want as nat),
            r matches Some((start, span)) ==> start % 4096 == 0 && start <= self.pos < start + span <= self.size,
    {
        if want == 0 || self.pos >= self.size {
            return None;
        }
        if self.start <= self.pos && self.pos - self.start < self.buf.len() as u64 {
            return None;
        }
        let start: u64 = self.pos - self.pos % 4096;
        proof {
            lemma_up_to(self.pos % 4096 + want, 4096);
        }
        let mut span: u64 = round_up(self.pos % 4096 + want as u64, 4096);
        if span > WINDOW {
            span = WINDOW;
        }
        if span < LEAST {
            span = LEAST;
        }
        if span > self.size - start {
            span = self.size - start;
        }
        Some((start, span))
    }

    /// Takes what was read from the disk at `start`.
    pub fn fill(&mut self, start: u64, bytes: Vec<u8>)
        ensures
            *final(self) == (DiskReader { start, buf: bytes, ..*old(self) }),
            forall|disk: Seq<u8>|
                disk.len() == old(self).size && start + bytes@.len() <= disk.len() && bytes@ == disk.subrange(
                    start as int,
                    start + bytes@.len(),
                ) ==> #[trigger] final(self).reads(disk),
    {
        self.start = start;
        self.buf = bytes;
    }

    /// How many bytes there are to take, of `want`.
    pub open spec fn available(self, want: nat) -> int {
        if self.at_hand() {
            min(want as int, self.start + self.buf@.len() - self.pos)
        } else {
            0
        }
    }

    /// The next bytes, up to `want` of them: those that are at hand.
    pub fn read(&mut self, want: usize) -> (r: Vec<u8>)
        requires
            old(self).start + old(self).buf@.len() <= old(self).size,
        ensures
            r@.len() == old(self).available(want as nat),
            forall|disk: Seq<u8>|
                #[trigger] old(self).reads(disk) ==> final(self).reads(disk) && (r@.len() > 0 ==> r@ == disk.subrange(
                    old(self).pos as int,
                    old(self).pos + r@.len(),
                )),
            *final(self) == (DiskReader { pos: (old(self).pos + r@.len()) as u64, ..*old(self) }),
    {
        let mut r: Vec<u8> = Vec::new();
        if self.start <= self.pos && self.pos - self.start < self.buf.len() as u64 {
            let at: usize = (self.pos - self.start) as usize;
            let len: usize = self.buf.len();
            let left: usize = len - at;
            let n: usize = if want < left {
                want
            } else {
                left
            };
            let mut i: usize = 0;
            while i < n
                invariant
                    i <= n,
                    at + n <= len,
                    len == self.buf@.len(),
                    r@ == self.buf@.subrange(at as int, at + i),
                decreases n - i,
            {
                r.push(self.buf[at + i]);
                i = i + 1;
            }
            self.pos = self.pos + n as u64;
        }
        proof {
            assert forall|disk: Seq<u8>| #[trigger] old(self).reads(disk) && r@.len() > 0 implies r@ == disk.subrange(
                old(self).pos as int,
                old(self).pos + r@.len(),
            ) by {
                assert(r@ =~= disk.subrange(old(self).pos as int, old(self).pos + r@.len()));
            }
        }
        r
    }

    pub open spec fn target(self, to: SeekTo) -> int {
        match to {
            SeekTo::Start(n) => n as int,
            SeekTo::End(d) => self.size + d,
            SeekTo::Current(d) => self.pos + d,
        }
    }

    /// Goes to another place. None before the start of the disk, or past where any can be.
    pub fn seek(&mut self, to: SeekTo) -> (r: Option<u64>)
        ensures
            match r {
                Some(pos) => pos == old(self).target(to) && *final(self) == (DiskReader { pos, ..*old(self) }),
                None => !(0 <= old(self).target(to) <= u64::MAX) && *final(self) == *old(self),
            },
    {
        let (base, d): (u64, i64) = match to {
            SeekTo::Start(n) => (n, 0),
            SeekTo::End(d) => (self.size, d),
            SeekTo::Current(d) => (self.pos, d),
        };
        let pos: i128 = base as i128 + d as i128;
        if pos < 0 || pos > u64::MAX as i128 {
            return None;
        }
        self.pos = pos as u64;
        Some(self.pos)
    }
}

/// After what `fetch` asks for was read, there is something to take, unless nothing is wanted or
/// the disk ends.
pub proof fn law_readers_get_further(r: DiskReader, bytes: Vec<u8>, want: nat)
    requires
        want > 0,
        r.pos < r.size,
        r.start + r.buf@.len() <= r.size,
        r.fetch_of(want) matches Some((start, span)) ==> bytes@.len() == span,
    ensures
        match r.fetch_of(want) {
            Some((start, span)) => (DiskReader { start, buf: bytes, ..r }).available(want) > 0,
            None => r.available(want) > 0,
        },
{
    lemma_up_to((r.pos % 4096 + want) as int, 4096);
}

} // verus!
