//! Virtual disks (DMG, VHD, VHDX, VMDK, QCOW2) read from start to end.
//!
//! Each format describes its disk as a series of pieces, in order: zeros, bytes stored as
//! they are somewhere in the file, or a compressed block.

use vstd::prelude::*;
use vstd::string::*;
use std::collections::VecDeque;
use crate::engine::formats::codec::{codec_name, decoded, no_decoder, Codec};
use crate::engine::formats::source::{
    bad, push_bytes, size_text, size_text_of, truncated_text, Layers, Loaded, Source, Stop,
};
use crate::error::{bad_fault, Error, Fault};
use crate::text::{decimal, push_decimal};

verus! {

/// Where a piece of the disk comes from.
#[derive(Clone, Copy, Debug, PartialEq, Eq, Structural)]
pub enum Run {
    /// Reads as zeros (unallocated, or marked as zeros).
    Zeros,
    /// Stored as is, from this offset in the file.
    Stored(u64),
    /// A compressed block; the piece is the start of what it decodes to.
    Packed(Packed),
}

#[derive(Clone, Copy, Debug, PartialEq, Eq, Structural)]
pub struct Packed {
    /// Where the compressed data starts in the file.
    pub offset: u64,
    /// How many bytes to read from there (less where the file ends).
    pub len: u32,
    pub codec: Codec,
    /// What the block decodes to, at most.
    pub size: u32,
    /// If it decodes to less than the piece needs, the rest reads as zeros (instead of
    /// being an error).
    pub short_ok: bool,
}

#[derive(Clone, Copy, Debug, PartialEq, Eq, Structural)]
pub struct Piece {
    pub len: u64,
    pub run: Run,
}

impl Piece {
    pub fn zeros(len: u64) -> (p: Piece)
        ensures
            p == (Piece { len, run: Run::Zeros }),
    {
        Piece { len, run: Run::Zeros }
    }

    pub fn stored(offset: u64, len: u64) -> (p: Piece)
        ensures
            p == (Piece { len, run: Run::Stored(offset) }),
    {
        Piece { len, run: Run::Stored(offset) }
    }
}

/// A format's map of its disk.
pub trait Layout: Sized {
    /// Is this a map that can be followed?
    spec fn wf(self) -> bool;

    /// The next piece of the disk, in order from its start, and the map after it. None once
    /// there is nothing more (the rest of the disk reads as zeros). Pieces may run past the
    /// disk's end.
    spec fn step(self, src: Layers, file: Seq<u8>) -> Result<Option<(Piece, Self)>, Fault>;

    /// The next piece.
    fn next(&mut self, src: &Source, have: &Loaded) -> (r: Result<Option<Piece>, Stop>)
        requires
            old(self).wf(),
            src@.wf(),
        ensures
            match r {
                Ok(Some(p)) => final(self).wf() && forall|file: Seq<u8>| #[trigger]
                    have.shows(src@, file) ==> old(self).step(src@, file) == Ok::<Option<(Piece, Self)>, Fault>(
                        Some((p, *final(self))),
                    ),
                Ok(None) => *final(self) == *old(self) && forall|file: Seq<u8>| #[trigger]
                    have.shows(src@, file) ==> old(self).step(src@, file) == Ok::<Option<(Piece, Self)>, Fault>(
                        None,
                    ),
                Err(Stop::Failed(e)) => forall|file: Seq<u8>| #[trigger]
                    have.shows(src@, file) ==> old(self).step(src@, file) == Err::<Option<(Piece, Self)>, Fault>(
                        e@,
                    ),
                Err(Stop::Need { offset, len }) => *final(self) == *old(self) && have.lacks(src@, offset, len),
            },
    ;
}

/// A map that is a list of pieces.
pub struct List {
    pub pieces: Vec<Piece>,
    pub next: usize,
}

impl List {
    pub fn new(pieces: Vec<Piece>) -> (l: List)
        ensures
            l.wf(),
            l.pieces == pieces,
            l.next == 0,
    {
        List { pieces, next: 0 }
    }
}

impl Layout for List {
    open spec fn wf(self) -> bool {
        self.next <= self.pieces@.len()
    }

    open spec fn step(self, src: Layers, file: Seq<u8>) -> Result<Option<(Piece, Self)>, Fault> {
        if self.next < self.pieces@.len() {
            Ok(Some((self.pieces@[self.next as int], List { next: (self.next + 1) as usize, ..self })))
        } else {
            Ok(None)
        }
    }

    fn next(&mut self, _src: &Source, _have: &Loaded) -> (r: Result<Option<Piece>, Stop>) {
        if self.next < self.pieces.len() {
            let p: Piece = self.pieces[self.next];
            self.next = self.next + 1;
            Ok(Some(p))
        } else {
            Ok(None)
        }
    }
}

/// The biggest compressed block that is decoded (7-Zip's limit for DMG chunks too).
pub const MAX_BLOCK: u32 = 0x1000_0000;

/// Pieces looked at ahead of the reader.
pub const MAX_AHEAD: usize = 4096;

/// How far ahead of the reader the layout is followed (so that neighbouring stored pieces
/// become one read).
pub const LOOK_AHEAD: u64 = 0x400_0000;

/// How many empty pieces in a row a map may have.
pub const MAX_EMPTY: u32 = 0x1_0000;

/// A run of zeros.
pub open spec fn zeros(n: nat) -> Seq<u8> {
    Seq::new(n, |i: int| 0u8)
}

/// `n` bytes of `got` from `from` on, with zeros past its end.
pub open spec fn padded(got: Seq<u8>, from: int, n: nat) -> Seq<u8> {
    Seq::new(
        n,
        |i: int|
            if 0 <= from + i < got.len() {
                got[from + i]
            } else {
                0u8
            },
    )
}

/// What a compressed block decodes to.
pub open spec fn unpacked(src: Layers, file: Seq<u8>, packed: Packed) -> Result<Seq<u8>, Fault> {
    match src.read_upto(file, packed.offset, packed.len as nat) {
        Err(f) => Err(f),
        Ok(input) => decoded(packed.codec, input, packed.size as nat),
    }
}

/// What is said of a block that does not decode.
pub open spec fn damaged_fault(pos: u64, packed: Packed, what: Seq<char>) -> Fault {
    bad_fault(
        "the image is damaged: the "@ + codec_name(packed.codec) + " block for the disk's data at byte "@
            + decimal(pos as nat) + " (stored at byte "@ + decimal(packed.offset as nat)
            + " of the file) doesn't decode: "@ + what,
    )
}

fn damaged(pos: u64, packed: &Packed, what: &str) -> (e: Error)
    ensures
        e@ == damaged_fault(pos, *packed, what@),
{
    let mut s: String = "the image is damaged: the ".to_owned();
    s.append(packed.codec.name());
    s.append(" block for the disk's data at byte ");
    push_decimal(&mut s, pos);
    s.append(" (stored at byte ");
    push_decimal(&mut s, packed.offset);
    s.append(" of the file) doesn't decode: ");
    s.append(what);
    bad(s.as_str())
}

/// What a piece of `need` bytes at `pos` of the disk gets from its compressed block.
pub open spec fn block_of(src: Layers, file: Seq<u8>, pos: u64, need: u64, packed: Packed) -> Result<Seq<u8>, Fault> {
    match unpacked(src, file, packed) {
        Err(f) => Err(damaged_fault(pos, packed, f.what)),
        Ok(got) => if got.len() < need && !packed.short_ok {
            Err(
                damaged_fault(
                    pos,
                    packed,
                    "it holds "@ + size_text_of(got.len()) + " instead of "@ + size_text_of(need as nat),
                ),
            )
        } else {
            Ok(got)
        },
    }
}

/// Why a read fails.
pub ghost enum Cause {
    /// What the image holds.
    Damage,
    /// No memory for a decoder, which says nothing of the image.
    Memory,
}

/// Can the compressed block of a piece of `need` bytes at `pos` fail with `f`? For want of
/// memory only where its decoder asks for some.
pub open spec fn packed_trouble(
    src: Layers,
    file: Seq<u8>,
    pos: u64,
    need: u64,
    packed: Packed,
    why: Cause,
    f: Fault,
) -> bool {
    match why {
        Cause::Damage => block_of(src, file, pos, need, packed) == Err::<Seq<u8>, Fault>(f),
        Cause::Memory => (packed.codec == Codec::Zstd || packed.codec == Codec::Bzip2) && f == damaged_fault(
            pos,
            packed,
            no_decoder(packed.codec).what,
        ),
    }
}

/// What is wrong with a piece as the map describes it.
pub open spec fn claim_fault(p: Piece) -> Option<Fault> {
    match p.run {
        Run::Packed(packed) => if packed.size > MAX_BLOCK || packed.len > MAX_BLOCK || p.len > packed.size {
            let most = if packed.size >= packed.len {
                packed.size as int
            } else {
                packed.len as int
            };
            let claim = if p.len >= most {
                p.len as int
            } else {
                most
            };
            Some(
                bad_fault(
                    "the image is damaged (a compressed block at byte "@ + decimal(packed.offset as nat)
                        + " of the file claims to hold "@ + size_text_of(claim as nat) + ")"@,
                ),
            )
        } else {
            None
        },
        _ => None,
    }
}

/// The first `n` bytes of a piece that starts at `pos` of the disk. (No read gives any of a
/// block that does not decode: see `piece_trouble`.)
pub open spec fn piece_bytes(src: Layers, file: Seq<u8>, pos: u64, p: Piece, n: nat) -> Seq<u8> {
    match p.run {
        Run::Zeros => zeros(n),
        Run::Stored(offset) => src.bytes(file, offset, n),
        Run::Packed(packed) => match block_of(src, file, pos, p.len, packed) {
            Ok(got) => padded(got, 0, n),
            Err(_) => zeros(n),
        },
    }
}

/// Can a read that ends at `end` fail with `f`?
pub open spec fn refused_at(src: Layers, end: int, f: Fault) -> bool {
    if end > u64::MAX {
        f == bad_fault("an offset is out of range"@)
    } else {
        end > src.end && f == bad_fault(truncated_text(src.size as nat, end as nat))
    }
}

/// What can go wrong with reading `n` bytes that are stored from `offset` on.
pub open spec fn stored_trouble(src: Layers, offset: int, n: int, f: Fault) -> bool {
    exists|end: int| offset < end <= offset + n && #[trigger] refused_at(src, end, f)
}

/// What can go wrong with reading the first `n` bytes of a piece.
pub open spec fn piece_trouble(src: Layers, file: Seq<u8>, pos: u64, p: Piece, n: int, why: Cause, f: Fault) -> bool {
    match p.run {
        Run::Zeros => false,
        Run::Stored(offset) => why is Damage && stored_trouble(src, offset as int, n, f),
        Run::Packed(packed) => n > 0 && packed_trouble(src, file, pos, p.len, packed, why, f),
    }
}

/// The least of the two.
pub open spec fn least(a: int, b: int) -> int {
    if a <= b {
        a
    } else {
        b
    }
}

/// The last `left` bytes of a disk of `size` bytes that the map describes from here on,
/// after `empty` empty pieces. (No read gives any that lie behind damage in the map: see
/// `stream_trouble`.)
pub open spec fn stream<L: Layout>(l: L, src: Layers, file: Seq<u8>, size: u64, left: nat, empty: nat) -> Seq<u8>
    decreases left, MAX_EMPTY + 1 - empty,
{
    if left == 0 {
        Seq::empty()
    } else {
        match l.step(src, file) {
            Ok(Some((p, next))) => if p.len == 0 {
                if empty >= MAX_EMPTY {
                    zeros(left)
                } else {
                    stream(next, src, file, size, left, empty + 1)
                }
            } else {
                let n = least(p.len as int, left as int) as nat;
                piece_bytes(src, file, (size - left) as u64, p, n) + stream(
                    next,
                    src,
                    file,
                    size,
                    (left - n) as nat,
                    0,
                )
            },
            _ => zeros(left),
        }
    }
}

/// What can go wrong with reading the first `asked` of them, with a look at the map `extra`
/// bytes ahead.
pub open spec fn stream_trouble<L: Layout>(
    l: L,
    src: Layers,
    file: Seq<u8>,
    size: u64,
    left: nat,
    empty: nat,
    asked: int,
    extra: nat,
    why: Cause,
    f: Fault,
) -> bool
    decreases left, MAX_EMPTY + 1 - empty,
{
    if left == 0 || asked + extra <= 0 {
        false
    } else {
        match l.step(src, file) {
            Err(e) => why is Damage && f == e,
            Ok(None) => false,
            Ok(Some((p, next))) => if p.len == 0 {
                if empty >= MAX_EMPTY {
                    why is Damage && f == bad_fault("the image is damaged (its map goes nowhere)"@)
                } else {
                    stream_trouble(next, src, file, size, left, empty + 1, asked, extra, why, f)
                }
            } else {
                let n = least(p.len as int, left as int) as nat;
                match claim_fault(p) {
                    Some(e) => why is Damage && f == e,
                    None => piece_trouble(src, file, (size - left) as u64, p, least(n as int, asked), why, f)
                        || stream_trouble(
                        next,
                        src,
                        file,
                        size,
                        (left - n) as nat,
                        0,
                        asked - n,
                        extra,
                        why,
                        f,
                    ),
                }
            },
        }
    }
}

/// A piece that was looked at ahead of the reader.
pub enum Slot {
    Zeros { len: u64 },
    Stored { offset: u64, len: u64 },
    Packed {
        /// How much of the piece is on the disk.
        len: u64,
        /// Where the piece starts on the disk (for messages).
        pos: u64,
        /// How long the piece is.
        need: u64,
        packed: Packed,
        data: Option<Vec<u8>>,
        /// How much of it was read.
        at: u64,
    },
}

impl Slot {
    pub open spec fn wf(self) -> bool {
        match self {
            Slot::Zeros { len } => len > 0,
            Slot::Stored { offset, len } => len > 0,
            Slot::Packed { len, packed, data, at, need, .. } => {
                &&& at < len
                &&& packed.size <= MAX_BLOCK
                &&& packed.len <= MAX_BLOCK
                &&& data matches Some(d) ==> d@.len() <= packed.size
            },
        }
    }

    /// How much of it is to be read.
    pub open spec fn left(self) -> nat {
        match self {
            Slot::Zeros { len } => len as nat,
            Slot::Stored { offset, len } => len as nat,
            Slot::Packed { len, at, .. } => (len - at) as nat,
        }
    }

    pub open spec fn bytes(self, src: Layers, file: Seq<u8>) -> Seq<u8> {
        match self {
            Slot::Zeros { len } => zeros(len as nat),
            Slot::Stored { offset, len } => src.bytes(file, offset, len as nat),
            Slot::Packed { len, pos, need, packed, data, at } => match data {
                Some(d) => padded(d@, at as int, (len - at) as nat),
                None => match block_of(src, file, pos, need, packed) {
                    Ok(got) => padded(got, at as int, (len - at) as nat),
                    Err(_) => zeros((len - at) as nat),
                },
            },
        }
    }

    /// What can go wrong with reading the first `asked` bytes of it.
    pub open spec fn trouble(self, src: Layers, file: Seq<u8>, asked: int, why: Cause, f: Fault) -> bool {
        match self {
            Slot::Zeros { len } => false,
            Slot::Stored { offset, len } => why is Damage && stored_trouble(
                src,
                offset as int,
                least(len as int, asked),
                f,
            ),
            Slot::Packed { pos, need, packed, data, .. } => asked > 0 && data is None && packed_trouble(
                src,
                file,
                pos,
                need,
                packed,
                why,
                f,
            ),
        }
    }
}

/// The bytes of some slots.
pub open spec fn slots_bytes(slots: Seq<Slot>, src: Layers, file: Seq<u8>) -> Seq<u8>
    decreases slots.len(),
{
    if slots.len() == 0 {
        Seq::empty()
    } else {
        slots_bytes(slots.drop_last(), src, file) + slots.last().bytes(src, file)
    }
}

/// How many they are.
pub open spec fn slots_left(slots: Seq<Slot>) -> nat
    decreases slots.len(),
{
    if slots.len() == 0 {
        0
    } else {
        slots_left(slots.drop_last()) + slots.last().left()
    }
}

/// What can go wrong with reading the first `asked` bytes of some slots.
pub open spec fn slots_trouble(slots: Seq<Slot>, src: Layers, file: Seq<u8>, asked: int, why: Cause, f: Fault) -> bool
    decreases slots.len(),
{
    if slots.len() == 0 {
        false
    } else {
        slots_trouble(slots.drop_last(), src, file, asked, why, f) || slots.last().trouble(
            src,
            file,
            asked - slots_left(slots.drop_last()),
            why,
            f,
        )
    }
}

proof fn lemma_slots_first(slots: Seq<Slot>, src: Layers, file: Seq<u8>)
    requires
        slots.len() > 0,
    ensures
        slots_bytes(slots, src, file) == slots[0].bytes(src, file) + slots_bytes(slots.skip(1), src, file),
        slots_left(slots) == slots[0].left() + slots_left(slots.skip(1)),
    decreases slots.len(),
{
    let rest = slots.skip(1);
    if slots.len() == 1 {
        assert(slots.drop_last() == Seq::<Slot>::empty());
        assert(rest == Seq::<Slot>::empty());
        assert(slots_bytes(Seq::<Slot>::empty(), src, file) == Seq::<u8>::empty());
        assert(slots_left(Seq::<Slot>::empty()) == 0);
        assert(slots_bytes(slots, src, file) == slots[0].bytes(src, file));
    } else {
        lemma_slots_first(slots.drop_last(), src, file);
        assert(slots.drop_last().skip(1) == rest.drop_last());
        assert(rest.last() == slots.last());
        assert(slots[0].bytes(src, file) + (slots_bytes(rest.drop_last(), src, file) + slots.last().bytes(src, file))
            == (slots[0].bytes(src, file) + slots_bytes(rest.drop_last(), src, file)) + slots.last().bytes(src, file));
    }
}

proof fn lemma_trouble_first(slots: Seq<Slot>, src: Layers, file: Seq<u8>, asked: int, why: Cause, f: Fault)
    requires
        slots.len() > 0,
    ensures
        slots_trouble(slots, src, file, asked, why, f) == (slots[0].trouble(src, file, asked, why, f) || slots_trouble(
            slots.skip(1),
            src,
            file,
            asked - slots[0].left(),
            why,
            f,
        )),
    decreases slots.len(),
{
    let rest = slots.skip(1);
    let init = slots.drop_last();
    if slots.len() == 1 {
        assert(init == Seq::<Slot>::empty());
        assert(rest == Seq::<Slot>::empty());
        assert(slots_left(init) == 0);
        assert(!slots_trouble(init, src, file, asked, why, f));
        assert(!slots_trouble(rest, src, file, asked - slots[0].left(), why, f));
        assert(slots.last() == slots[0]);
    } else {
        lemma_trouble_first(init, src, file, asked, why, f);
        lemma_slots_first(init, src, file);
        assert(init.skip(1) == rest.drop_last());
        assert(init[0] == slots[0]);
        assert(rest.last() == slots.last());
        assert(asked - slots_left(init) == asked - slots[0].left() - slots_left(rest.drop_last()));
    }
}

/// What can go wrong with few bytes can go wrong with more.
proof fn lemma_slots_more(slots: Seq<Slot>, src: Layers, file: Seq<u8>, a: int, b: int, why: Cause, f: Fault)
    requires
        a <= b,
        slots_trouble(slots, src, file, a, why, f),
    ensures
        slots_trouble(slots, src, file, b, why, f),
    decreases slots.len(),
{
    let init = slots.drop_last();
    if slots_trouble(init, src, file, a, why, f) {
        lemma_slots_more(init, src, file, a, b, why, f);
    } else if let Slot::Stored { offset, len } = slots.last() {
        let n = least(len as int, a - slots_left(init));
        let end = choose|end: int| offset < end <= offset + n && #[trigger] refused_at(src, end, f);
        assert(refused_at(src, end, f));
    }
}

proof fn lemma_stream_more<L: Layout>(
    l: L,
    src: Layers,
    file: Seq<u8>,
    size: u64,
    left: nat,
    empty: nat,
    a: int,
    b: int,
    extra: nat,
    why: Cause,
    f: Fault,
)
    requires
        a <= b,
        stream_trouble(l, src, file, size, left, empty, a, extra, why, f),
    ensures
        stream_trouble(l, src, file, size, left, empty, b, extra, why, f),
    decreases left, MAX_EMPTY + 1 - empty,
{
    if let Ok(Some((p, next))) = l.step(src, file) {
        if p.len == 0 {
            if empty < MAX_EMPTY {
                lemma_stream_more(next, src, file, size, left, empty + 1, a, b, extra, why, f);
            }
        } else if claim_fault(p) is None {
            let n = least(p.len as int, left as int) as nat;
            if stream_trouble(next, src, file, size, (left - n) as nat, 0, a - n, extra, why, f) {
                lemma_stream_more(next, src, file, size, (left - n) as nat, 0, a - n, b - n, extra, why, f);
            } else if let Run::Stored(offset) = p.run {
                let k = least(n as int, a);
                let end = choose|end: int| offset < end <= offset + k && #[trigger] refused_at(src, end, f);
                assert(refused_at(src, end, f));
            }
        }
    }
}

proof fn lemma_slots_push(slots: Seq<Slot>, s: Slot, src: Layers, file: Seq<u8>)
    ensures
        slots_bytes(slots.push(s), src, file) == slots_bytes(slots, src, file) + s.bytes(src, file),
        slots_left(slots.push(s)) == slots_left(slots) + s.left(),
        forall|asked: int, why: Cause, f: Fault| #[trigger]
            slots_trouble(slots.push(s), src, file, asked, why, f) == (slots_trouble(slots, src, file, asked, why, f)
                || s.trouble(src, file, asked - slots_left(slots), why, f)),
{
    let all = slots.push(s);
    assert(all.drop_last() == slots);
}

/// A disk, read from start to end.
pub struct VDisk<L: Layout> {
    pub src: Source,
    pub layout: L,
    pub size: u64,
    /// Bytes returned so far.
    pub pos: u64,
    /// Bytes the layout has described so far.
    pub mapped: u64,
    pub map_done: bool,
    pub ahead: VecDeque<Slot>,
    /// Empty pieces in a row from the layout.
    pub empty: u32,
}

impl<L: Layout> VDisk<L> {
    pub open spec fn wf(&self) -> bool {
        &&& self.src@.wf()
        &&& self.layout.wf()
        &&& self.pos <= self.mapped <= self.size
        &&& slots_left(self.ahead@) == self.mapped - self.pos
        &&& forall|i: int| 0 <= i < self.ahead@.len() ==> (#[trigger] self.ahead@[i]).wf()
        &&& !self.map_done ==> self.mapped < self.size
        &&& self.empty <= MAX_EMPTY
    }

    /// What is left of the disk.
    pub open spec fn rest(&self, file: Seq<u8>) -> Seq<u8> {
        slots_bytes(self.ahead@, self.src@, file) + if self.map_done {
            zeros((self.size - self.mapped) as nat)
        } else {
            stream(
                self.layout,
                self.src@,
                file,
                self.size,
                (self.size - self.mapped) as nat,
                self.empty as nat,
            )
        }
    }

    /// Can reading the next `asked` bytes of the disk, with a look at the map `extra` bytes
    /// ahead, fail with `f`?
    pub open spec fn trouble(&self, file: Seq<u8>, asked: int, extra: nat, why: Cause, f: Fault) -> bool {
        slots_trouble(self.ahead@, self.src@, file, asked, why, f) || (!self.map_done && stream_trouble(
            self.layout,
            self.src@,
            file,
            self.size,
            (self.size - self.mapped) as nat,
            self.empty as nat,
            asked - (self.mapped - self.pos),
            extra,
            why,
            f,
        ))
    }

    /// Does it hold all of a disk that `layout` describes, with all that is wrong with it?
    pub open spec fn opens(&self, layout: L, src: Layers, file: Seq<u8>) -> bool {
        &&& self.rest(file) == stream(layout, src, file, self.size, self.size as nat, 0)
        &&& forall|asked: int, extra: nat, why: Cause, f: Fault| #[trigger]
            self.trouble(file, asked, extra, why, f) == stream_trouble(
                layout,
                src,
                file,
                self.size,
                self.size as nat,
                0,
                asked,
                extra,
                why,
                f,
            )
    }

    pub fn new(src: Source, size: u64, layout: L) -> (d: VDisk<L>)
        requires
            src@.wf(),
            layout.wf(),
        ensures
            d.wf(),
            d.src == src,
            d.layout == layout,
            d.size == size,
            d.pos == 0,
            forall|file: Seq<u8>| #[trigger] d.opens(layout, src@, file),
            forall|file: Seq<u8>| #[trigger] d.rest(file) == stream(layout, src@, file, size, size as nat, 0),
    {
        let d: VDisk<L> = VDisk {
            src,
            layout,
            size,
            pos: 0,
            mapped: 0,
            map_done: size == 0,
            ahead: VecDeque::new(),
            empty: 0,
        };
        proof {
            assert(slots_left(d.ahead@) == 0);
            assert forall|file: Seq<u8>| #[trigger] d.rest(file) == stream(layout, src@, file, size, size as nat, 0) by {
                assert(slots_bytes(d.ahead@, src@, file) == Seq::<u8>::empty());
                assert(d.rest(file) == stream(layout, src@, file, size, size as nat, 0));
            }
            assert forall|file: Seq<u8>| #[trigger] d.opens(layout, src@, file) by {
                assert(d.rest(file) == stream(layout, src@, file, size, size as nat, 0));
            }
        }
        d
    }

    /// Does `self` hold the same disk, from the same place on, as `before` did?
    pub open spec fn same_as(&self, before: &Self, file: Seq<u8>) -> bool {
        &&& self.rest(file) == before.rest(file)
        &&& forall|asked: int, extra: nat, why: Cause, f: Fault| #[trigger]
            self.trouble(file, asked, extra, why, f) == before.trouble(file, asked, extra, why, f)
    }

    /// Does a read that gives `v` lead from `self` to `after`? Nothing is wrong with what it
    /// gives, and what is wrong with the rest stays where it is.
    pub open spec fn reads_on(&self, v: Seq<u8>, after: &Self, file: Seq<u8>) -> bool {
        &&& v + after.rest(file) == self.rest(file)
        &&& after.size == self.size
        &&& after.pos == self.pos + v.len()
        &&& forall|f: Fault| !#[trigger] self.trouble(file, v.len() as int, 0, Cause::Damage, f)
        &&& forall|asked: int, extra: nat, f: Fault| #[trigger]
            after.trouble(file, asked, extra, Cause::Damage, f) == self.trouble(
                file,
                asked + v.len(),
                extra,
                Cause::Damage,
                f,
            )
        &&& forall|asked: int, extra: nat, f: Fault| #[trigger]
            after.trouble(file, asked, extra, Cause::Memory, f) ==> self.trouble(
                file,
                asked + v.len(),
                extra,
                Cause::Memory,
                f,
            )
    }

    /// Adds a piece of the disk, at `pos`, to what is ahead.
    fn push(&mut self, piece: Piece, pos: u64, len: u64) -> (r: Result<(), Error>)
        requires
            0 < len <= piece.len,
        ensures
            final(self).src == old(self).src,
            final(self).layout == old(self).layout,
            final(self).size == old(self).size,
            final(self).pos == old(self).pos,
            final(self).mapped == old(self).mapped,
            final(self).map_done == old(self).map_done,
            final(self).empty == old(self).empty,
            match r {
                Ok(()) => {
                    &&& claim_fault(piece) is None
                    &&& (forall|i: int| 0 <= i < old(self).ahead@.len() ==> (#[trigger] old(self).ahead@[i]).wf())
                        && slots_left(old(self).ahead@) + len <= u64::MAX ==> {
                        &&& forall|i: int| 0 <= i < final(self).ahead@.len() ==> (#[trigger] final(self).ahead@[i]).wf()
                        &&& slots_left(final(self).ahead@) == slots_left(old(self).ahead@) + len
                        &&& forall|file: Seq<u8>| #[trigger]
                            slots_bytes(final(self).ahead@, old(self).src@, file) == slots_bytes(
                                old(self).ahead@,
                                old(self).src@,
                                file,
                            ) + piece_bytes(old(self).src@, file, pos, piece, len as nat)
                        &&& forall|file: Seq<u8>, asked: int, why: Cause, f: Fault| #[trigger]
                            slots_trouble(final(self).ahead@, old(self).src@, file, asked, why, f) == (slots_trouble(
                                old(self).ahead@,
                                old(self).src@,
                                file,
                                asked,
                                why,
                                f,
                            ) || piece_trouble(
                                old(self).src@,
                                file,
                                pos,
                                piece,
                                least(len as int, asked - slots_left(old(self).ahead@)),
                                why,
                                f,
                            ))
                    }
                },
                Err(e) => claim_fault(piece) == Some(e@),
            },
    {
        let ghost before = self.ahead@;
        let ghost layers = self.src@;
        if let Run::Packed(packed) = piece.run {
            if packed.size > MAX_BLOCK || packed.len > MAX_BLOCK || piece.len > packed.size as u64 {
                let most: u32 = if packed.size >= packed.len {
                    packed.size
                } else {
                    packed.len
                };
                let claim: u64 = if piece.len >= most as u64 {
                    piece.len
                } else {
                    most as u64
                };
                let mut s: String = "the image is damaged (a compressed block at byte ".to_owned();
                push_decimal(&mut s, packed.offset);
                s.append(" of the file claims to hold ");
                s.append(size_text(claim).as_str());
                s.append(")");
                return Err(bad(s.as_str()));
            }
        }
        let last: Option<Slot> = self.ahead.pop_back();
        let (kept, added): (Option<Slot>, Slot) = match (piece.run, last) {
            (Run::Zeros, Some(Slot::Zeros { len: l })) if l <= u64::MAX - len => {
                (None, Slot::Zeros { len: l + len })
            },
            (Run::Stored(offset), Some(Slot::Stored { offset: o, len: l })) if l <= u64::MAX - len && o <= offset
                && offset - o == l => { (None, Slot::Stored { offset: o, len: l + len }) },
            (Run::Zeros, last) => (last, Slot::Zeros { len }),
            (Run::Stored(offset), last) => (last, Slot::Stored { offset, len }),
            (Run::Packed(packed), last) => {
                (last, Slot::Packed { len, pos, need: piece.len, packed, data: None, at: 0 })
            },
        };
        let ghost base = self.ahead@;
        if let Some(slot) = kept {
            self.ahead.push_back(slot);
        }
        let ghost middle = self.ahead@;
        self.ahead.push_back(added);
        proof {
            let merged = kept is None && before.len() > 0;
            if before.len() > 0 {
                assert(base == before.drop_last());
                assert(base.push(before.last()) == before);
            }
            if merged {
                assert(self.ahead@ == before.drop_last().push(added));
            } else {
                assert(middle == before);
                assert(self.ahead@ == before.push(added));
            }
            if (forall|i: int| 0 <= i < before.len() ==> (#[trigger] before[i]).wf()) && slots_left(before) + len
                <= u64::MAX {
                lemma_pushed(before, self.ahead@, added, merged, layers, piece, pos, len);
            }
        }
        Ok(())
    }

    /// Gets pieces from the layout: at least one, and more to look ahead.
    fn fill(&mut self, have: &Loaded) -> (r: Result<(), Stop>)
        requires
            old(self).wf(),
        ensures
            final(self).src == old(self).src,
            final(self).size == old(self).size,
            final(self).pos == old(self).pos,
            match r {
                Ok(()) => {
                    &&& final(self).wf()
                    &&& final(self).ahead@.len() > 0 || final(self).map_done
                    &&& forall|file: Seq<u8>| #[trigger]
                        have.shows(old(self).src@, file) ==> final(self).same_as(old(self), file)
                },
                Err(Stop::Need { offset, len }) => {
                    &&& final(self).wf()
                    &&& have.lacks(old(self).src@, offset, len)
                    &&& forall|file: Seq<u8>| #[trigger]
                        have.shows(old(self).src@, file) ==> final(self).same_as(old(self), file)
                },
                Err(Stop::Failed(e)) => forall|file: Seq<u8>| #[trigger]
                    have.shows(old(self).src@, file) ==> old(self).trouble(
                        file,
                        0,
                        LOOK_AHEAD as nat,
                        Cause::Damage,
                        e@,
                    ),
            },
    {
        while !self.map_done && self.ahead.len() < MAX_AHEAD && (self.ahead.len() == 0 || self.mapped - self.pos
            < LOOK_AHEAD)
            invariant
                old(self).wf(),
                self.wf(),
                self.src == old(self).src,
                self.size == old(self).size,
                self.pos == old(self).pos,
                forall|file: Seq<u8>| #[trigger] have.shows(old(self).src@, file) ==> self.same_as(old(self), file),
            decreases self.size - self.mapped, (if self.map_done { 0int } else { 1int }), MAX_EMPTY + 1 - self.empty,
        {
            let ghost was = *self;
            let got: Option<Piece> = match self.layout.next(&self.src, have) {
                Ok(p) => p,
                Err(Stop::Need { offset, len }) => {
                    return Err(Stop::Need { offset, len });
                },
                Err(Stop::Failed(e)) => {
                    proof {
                        assert forall|file: Seq<u8>| #[trigger] have.shows(old(self).src@, file) implies old(
                            self,
                        ).trouble(file, 0, LOOK_AHEAD as nat, Cause::Damage, e@) by {
                            assert(was.same_as(old(self), file));
                            assert(was.trouble(file, 0, LOOK_AHEAD as nat, Cause::Damage, e@));
                        }
                    }
                    return Err(Stop::Failed(e));
                },
            };
            match got {
                None => {
                    self.map_done = true;
                    proof {
                        assert forall|file: Seq<u8>| #[trigger] have.shows(old(self).src@, file) implies self.same_as(
                            old(self),
                            file,
                        ) by {
                            assert(was.same_as(old(self), file));
                            assert(self.rest(file) == was.rest(file));
                            assert forall|asked: int, extra: nat, why: Cause, f: Fault| #[trigger]
                                self.trouble(file, asked, extra, why, f) == old(self).trouble(
                                    file,
                                    asked,
                                    extra,
                                    why,
                                    f,
                                ) by {
                                assert(was.trouble(file, asked, extra, why, f) == old(self).trouble(
                                    file,
                                    asked,
                                    extra,
                                    why,
                                    f,
                                ));
                            }
                        }
                    }
                },
                Some(piece) => {
                    if piece.len == 0 {
                        if self.empty >= MAX_EMPTY {
                            proof {
                                assert forall|file: Seq<u8>| #[trigger] have.shows(old(self).src@, file) implies old(
                                    self,
                                ).trouble(
                                    file,
                                    0,
                                    LOOK_AHEAD as nat,
                                    Cause::Damage,
                                    bad_fault("the image is damaged (its map goes nowhere)"@),
                                ) by {
                                    assert(was.same_as(old(self), file));
                                    assert(was.trouble(
                                        file,
                                        0,
                                        LOOK_AHEAD as nat,
                                        Cause::Damage,
                                        bad_fault("the image is damaged (its map goes nowhere)"@),
                                    ));
                                }
                            }
                            return Err(Stop::Failed(bad("the image is damaged (its map goes nowhere)")));
                        }
                        self.empty = self.empty + 1;
                        proof {
                            assert forall|file: Seq<u8>| #[trigger] have.shows(old(self).src@, file) implies self.same_as(
                                old(self),
                                file,
                            ) by {
                                assert(was.same_as(old(self), file));
                                assert(self.rest(file) == was.rest(file));
                                assert forall|asked: int, extra: nat, why: Cause, f: Fault| #[trigger]
                                self.trouble(file, asked, extra, why, f) == old(self).trouble(
                                    file,
                                    asked,
                                    extra,
                                    why,
                                    f,
                                ) by {
                                assert(was.trouble(file, asked, extra, why, f) == old(self).trouble(
                                    file,
                                    asked,
                                    extra,
                                    why,
                                    f,
                                ));
                            }
                            }
                        }
                    } else {
                        self.empty = 0;
                        let pos: u64 = self.mapped;
                        let room: u64 = self.size - self.mapped;
                        let len: u64 = if piece.len <= room {
                            piece.len
                        } else {
                            room
                        };
                        self.mapped = self.mapped + len;
                        self.map_done = self.mapped >= self.size;
                        let ghost mid = *self;
                        match self.push(piece, pos, len) {
                            Ok(()) => {},
                            Err(e) => {
                                proof {
                                    assert forall|file: Seq<u8>| #[trigger]
                                        have.shows(old(self).src@, file) implies old(self).trouble(file, 0, LOOK_AHEAD as nat, Cause::Damage, e@) by {
                                        assert(was.same_as(old(self), file));
                                        assert(was.trouble(file, 0, LOOK_AHEAD as nat, Cause::Damage, e@));
                                    }
                                }
                                return Err(Stop::Failed(e));
                            },
                        }
                        proof {
                            assert forall|file: Seq<u8>| #[trigger] have.shows(old(self).src@, file) implies self.same_as(
                                old(self),
                                file,
                            ) by {
                                assert(was.same_as(old(self), file));
                                lemma_filled(was, *self, piece, len, file);
                            }
                        }
                    }
                },
            }
        }
        Ok(())
    }

    /// Does reading the next `asked` bytes fail with `f`, whatever is not at hand?
    pub open spec fn fails(&self, have: &Loaded, asked: int, f: Fault) -> bool {
        ||| forall|file: Seq<u8>| #[trigger]
            have.shows(self.src@, file) ==> self.trouble(file, asked, LOOK_AHEAD as nat, Cause::Damage, f)
        ||| forall|file: Seq<u8>| #[trigger]
            have.shows(self.src@, file) ==> self.trouble(file, asked, 0, Cause::Memory, f)
    }

    /// Takes up to `room` bytes of the first slot.
    #[verifier::spinoff_prover]
    fn take(&mut self, have: &Loaded, room: usize) -> (r: Result<Vec<u8>, Stop>)
        requires
            old(self).wf(),
            old(self).ahead@.len() > 0,
            room > 0,
        ensures
            final(self).src == old(self).src,
            final(self).size == old(self).size,
            match r {
                Ok(v) => {
                    &&& final(self).wf()
                    &&& 0 < v@.len() <= room
                    &&& final(self).pos == old(self).pos + v@.len()
                    &&& forall|file: Seq<u8>| #[trigger]
                        have.shows(old(self).src@, file) ==> old(self).reads_on(v@, final(self), file)
                },
                Err(Stop::Need { offset, len }) => {
                    &&& have.lacks(old(self).src@, offset, len)
                    &&& final(self).wf()
                    &&& final(self).pos == old(self).pos
                    &&& forall|file: Seq<u8>| #[trigger]
                        have.shows(old(self).src@, file) ==> final(self).same_as(old(self), file)
                },
                Err(Stop::Failed(e)) => old(self).fails(have, room as int, e@),
            },
    {
        let ghost all = self.ahead@;
        let ghost layers = self.src@;
        proof {
            assert(all[0].wf());
            lemma_slots_first(all, layers, Seq::empty());
        }
        let slot: Slot = match self.ahead.pop_front() {
            Some(s) => s,
            None => {
                return Ok(Vec::new());
            },
        };
        let ghost others = self.ahead@;
        assert(others == all.skip(1));
        let ghost slot0 = slot;
        assert(slot0 == all[0]);
        let (r, left): (Result<Vec<u8>, Stop>, Option<Slot>) = take_from(slot, &self.src, have, room);
        let ghost left0 = left;
        if let Some(slot) = left {
            self.ahead.push_front(slot);
        }
        let ghost now = self.ahead@;
        proof {
            if left0 is Some {
                assert(now.skip(1) == others);
                assert(now[0] == left0->0);
                lemma_slots_first(now, layers, Seq::empty());
            } else {
                assert(now == others);
            }
            assert forall|i: int| 0 <= i < now.len() implies (#[trigger] now[i]).wf() by {
                if left0 is Some {
                    if i > 0 {
                        assert(now[i] == all[i]);
                    }
                } else {
                    assert(now[i] == all[i + 1]);
                }
            }
        }
        match r {
            Ok(out) => {
                self.pos = self.pos + out.len() as u64;
                proof {
                    assert forall|file: Seq<u8>| #[trigger] have.shows(layers, file) implies old(self).reads_on(
                        out@,
                        self,
                        file,
                    ) by {
                        lemma_taken(*old(self), *self, left0, out@, file);
                    }
                }
                Ok(out)
            },
            Err(s) => {
                proof {
                    assert(now == all);
                    if let Stop::Failed(ref e) = s {
                        if forall|file: Seq<u8>| #[trigger]
                            have.shows(layers, file) ==> slot0.trouble(
                                layers,
                                file,
                                room as int,
                                Cause::Damage,
                                e@,
                            ) {
                            assert forall|file: Seq<u8>| #[trigger] have.shows(old(self).src@, file) implies old(
                                self,
                            ).trouble(file, room as int, LOOK_AHEAD as nat, Cause::Damage, e@) by {
                                assert(have.shows(layers, file));
                                lemma_trouble_first(all, layers, file, room as int, Cause::Damage, e@);
                            }
                        } else {
                            assert forall|file: Seq<u8>| #[trigger] have.shows(old(self).src@, file) implies old(
                                self,
                            ).trouble(file, room as int, 0, Cause::Memory, e@) by {
                                assert(have.shows(layers, file));
                                lemma_trouble_first(all, layers, file, room as int, Cause::Memory, e@);
                            }
                        }
                    }
                    assert forall|file: Seq<u8>| #[trigger] have.shows(layers, file) implies self.same_as(
                        old(self),
                        file,
                    ) by {}
                }
                Err(s)
            },
        }
    }

    /// Reads up to `max` bytes of the disk, in order: all of them where nothing is lacking,
    /// and none at its end. It fails where something is wrong with what it was asked for (or
    /// with the map, which is followed some way ahead), and gives nothing that something is
    /// wrong with.
    pub fn read(&mut self, have: &Loaded, max: usize) -> (r: Result<Vec<u8>, Stop>)
        requires
            old(self).wf(),
        ensures
            final(self).src == old(self).src,
            final(self).size == old(self).size,
            match r {
                Ok(v) => {
                    &&& final(self).wf()
                    &&& final(self).pos == old(self).pos + v@.len()
                    &&& v@.len() <= least(old(self).size - old(self).pos, max as int)
                    &&& v@.len() < least(old(self).size - old(self).pos, max as int) ==> v@.len() > 0 && exists|
                        offset: u64,
                        len: usize,
                    | have.lacks(old(self).src@, offset, len)
                    &&& forall|file: Seq<u8>| #[trigger]
                        have.shows(old(self).src@, file) ==> old(self).reads_on(v@, final(self), file)
                },
                Err(Stop::Need { offset, len }) => {
                    &&& have.lacks(old(self).src@, offset, len)
                    &&& final(self).wf()
                    &&& final(self).pos == old(self).pos
                    &&& forall|file: Seq<u8>| #[trigger]
                        have.shows(old(self).src@, file) ==> final(self).same_as(old(self), file)
                },
                Err(Stop::Failed(e)) => {
                    &&& old(self).pos < old(self).size
                    &&& max > 0
                    &&& old(self).fails(have, least(old(self).size - old(self).pos, max as int), e@)
                },
            },
    {
        let want: usize = if self.size - self.pos <= max as u64 {
            (self.size - self.pos) as usize
        } else {
            max
        };
        let mut out: Vec<u8> = Vec::new();
        proof {
            lemma_so_far_none(*self, have);
        }
        while out.len() < want
            invariant
                old(self).wf(),
                self.wf(),
                self.src == old(self).src,
                self.size == old(self).size,
                self.pos == old(self).pos + out@.len(),
                out@.len() <= want,
                want == least(old(self).size - old(self).pos, max as int),
                so_far(*old(self), out@, *self, have),
            decreases want - out@.len(),
        {
            let ghost was = *self;
            match self.fill(have) {
                Ok(()) => {},
                Err(Stop::Need { offset, len }) => {
                    proof {
                        lemma_so_far_same(*old(self), out@, was, *self, have);
                        reveal(so_far);
                    }
                    if out.len() > 0 {
                        return Ok(out);
                    }
                    return Err(Stop::Need { offset, len });
                },
                Err(Stop::Failed(e)) => {
                    proof {
                        assert(was.fails(have, 0, e@));
                        lemma_so_far_fails(*old(self), out@, was, have, 0, want as int, e@);
                    }
                    return Err(Stop::Failed(e));
                },
            }
            let ghost filled = *self;
            proof {
                lemma_so_far_same(*old(self), out@, was, *self, have);
            }
            let room: usize = want - out.len();
            if self.ahead.len() == 0 {
                // The layout ended early: the rest is zeros.
                let more: Vec<u8> = zero_bytes(room);
                self.pos = self.pos + room as u64;
                self.mapped = self.pos;
                let ghost before = out@;
                push_bytes(&mut out, &more);
                proof {
                    assert forall|file: Seq<u8>| #[trigger] have.shows(old(self).src@, file) implies filled.reads_on(
                        more@,
                        self,
                        file,
                    ) by {
                        lemma_zeros_left(filled, *self, more@, file);
                    }
                    lemma_so_far_more(*old(self), before, filled, more@, *self, have);
                }
                continue;
            }
            match self.take(have, room) {
                Ok(v) => {
                    let ghost before = out@;
                    push_bytes(&mut out, &v);
                    proof {
                        lemma_so_far_more(*old(self), before, filled, v@, *self, have);
                    }
                },
                Err(Stop::Need { offset, len }) => {
                    proof {
                        lemma_so_far_same(*old(self), out@, filled, *self, have);
                        reveal(so_far);
                    }
                    if out.len() > 0 {
                        return Ok(out);
                    }
                    return Err(Stop::Need { offset, len });
                },
                Err(Stop::Failed(e)) => {
                    proof {
                        lemma_so_far_fails(*old(self), out@, filled, have, room as int, want as int, e@);
                    }
                    return Err(Stop::Failed(e));
                },
            }
        }
        proof {
            reveal(so_far);
        }
        Ok(out)
    }
}

/// Has a read come from `d` to `mid`, with `a` given so far?
#[verifier::opaque]
spec fn so_far<L: Layout>(d: VDisk<L>, a: Seq<u8>, mid: VDisk<L>, have: &Loaded) -> bool {
    forall|file: Seq<u8>| #[trigger]
        have.shows(d.src@, file) ==> d.reads_on(a, &mid, file) && (a.len() == 0 ==> mid.same_as(&d, file))
}

proof fn lemma_so_far_none<L: Layout>(d: VDisk<L>, have: &Loaded)
    requires
        d.wf(),
    ensures
        so_far(d, Seq::empty(), d, have),
{
    reveal(so_far);
    assert forall|file: Seq<u8>| #[trigger] have.shows(d.src@, file) implies d.reads_on(Seq::empty(), &d, file) by {
        lemma_reads_nothing(d, file);
    }
}

proof fn lemma_so_far_same<L: Layout>(d: VDisk<L>, a: Seq<u8>, mid: VDisk<L>, end: VDisk<L>, have: &Loaded)
    requires
        so_far(d, a, mid, have),
        end.size == mid.size,
        end.pos == mid.pos,
        mid.src == d.src,
        forall|file: Seq<u8>| #[trigger] have.shows(mid.src@, file) ==> end.same_as(&mid, file),
    ensures
        so_far(d, a, end, have),
{
    reveal(so_far);
    assert forall|file: Seq<u8>| #[trigger] have.shows(d.src@, file) implies d.reads_on(a, &end, file) && (a.len() == 0
        ==> end.same_as(&d, file)) by {
        lemma_then_same(d, a, mid, end, file);
    }
}

proof fn lemma_so_far_more<L: Layout>(
    d: VDisk<L>,
    a: Seq<u8>,
    mid: VDisk<L>,
    b: Seq<u8>,
    end: VDisk<L>,
    have: &Loaded,
)
    requires
        so_far(d, a, mid, have),
        mid.src == d.src,
        b.len() > 0,
        forall|file: Seq<u8>| #[trigger] have.shows(mid.src@, file) ==> mid.reads_on(b, &end, file),
    ensures
        so_far(d, a + b, end, have),
{
    reveal(so_far);
    assert forall|file: Seq<u8>| #[trigger] have.shows(d.src@, file) implies d.reads_on(a + b, &end, file) by {
        lemma_reads_on(d, a, mid, b, end, file);
    }
}

/// What goes wrong on the way was wrong from the start.
proof fn lemma_so_far_fails<L: Layout>(
    d: VDisk<L>,
    a: Seq<u8>,
    mid: VDisk<L>,
    have: &Loaded,
    asked: int,
    want: int,
    f: Fault,
)
    requires
        so_far(d, a, mid, have),
        mid.src == d.src,
        mid.fails(have, asked, f),
        asked + a.len() <= want,
    ensures
        d.fails(have, want, f),
{
    reveal(so_far);
    if forall|file: Seq<u8>| #[trigger]
        have.shows(mid.src@, file) ==> mid.trouble(file, asked, LOOK_AHEAD as nat, Cause::Damage, f) {
        assert forall|file: Seq<u8>| #[trigger] have.shows(d.src@, file) implies d.trouble(
            file,
            want,
            LOOK_AHEAD as nat,
            Cause::Damage,
            f,
        ) by {
            assert(mid.trouble(file, asked, LOOK_AHEAD as nat, Cause::Damage, f));
            lemma_more(d, file, asked + a.len(), want, LOOK_AHEAD as nat, Cause::Damage, f);
        }
    } else {
        assert forall|file: Seq<u8>| #[trigger] have.shows(d.src@, file) implies d.trouble(
            file,
            want,
            0,
            Cause::Memory,
            f,
        ) by {
            assert(mid.trouble(file, asked, 0, Cause::Memory, f));
            lemma_more(d, file, asked + a.len(), want, 0, Cause::Memory, f);
        }
    }
}

/// Where the map has ended, zeros are left.
proof fn lemma_zeros_left<L: Layout>(was: VDisk<L>, now: VDisk<L>, more: Seq<u8>, file: Seq<u8>)
    requires
        was.wf(),
        was.map_done,
        was.ahead@.len() == 0,
        more == zeros(more.len()),
        now == (VDisk { pos: (was.pos + more.len()) as u64, mapped: (was.pos + more.len()) as u64, ..was }),
        was.pos + more.len() <= was.size,
    ensures
        was.reads_on(more, &now, file),
{
    assert(slots_left(was.ahead@) == 0);
    assert(slots_bytes(was.ahead@, was.src@, file) == Seq::<u8>::empty());
    assert(was.rest(file) == zeros((was.size - was.mapped) as nat));
    assert(now.rest(file) == zeros((now.size - now.mapped) as nat));
    assert(more + now.rest(file) == was.rest(file));
}

proof fn lemma_reads_nothing<L: Layout>(d: VDisk<L>, file: Seq<u8>)
    requires
        d.wf(),
    ensures
        d.reads_on(Seq::empty(), &d, file),
{
    assert(Seq::<u8>::empty() + d.rest(file) == d.rest(file));
    assert forall|f: Fault| !#[trigger] d.trouble(file, 0, 0, Cause::Damage, f) by {
        lemma_none_asked(d.ahead@, d.src@, file, 0, f);
    }
}

/// Nothing goes wrong where nothing is asked for.
proof fn lemma_none_asked(slots: Seq<Slot>, src: Layers, file: Seq<u8>, asked: int, f: Fault)
    requires
        asked <= 0,
    ensures
        !slots_trouble(slots, src, file, asked, Cause::Damage, f),
    decreases slots.len(),
{
    if slots.len() > 0 {
        lemma_none_asked(slots.drop_last(), src, file, asked, f);
    }
}

/// What can go wrong with few bytes can go wrong with more.
proof fn lemma_more<L: Layout>(d: VDisk<L>, file: Seq<u8>, a: int, b: int, extra: nat, why: Cause, f: Fault)
    requires
        a <= b,
        d.trouble(file, a, extra, why, f),
    ensures
        d.trouble(file, b, extra, why, f),
{
    if slots_trouble(d.ahead@, d.src@, file, a, why, f) {
        lemma_slots_more(d.ahead@, d.src@, file, a, b, why, f);
    } else {
        let n = d.mapped - d.pos;
        lemma_stream_more(
            d.layout,
            d.src@,
            file,
            d.size,
            (d.size - d.mapped) as nat,
            d.empty as nat,
            a - n,
            b - n,
            extra,
            why,
            f,
        );
    }
}

/// Two reads are one that gives what they give together.
proof fn lemma_reads_on<L: Layout>(d: VDisk<L>, a: Seq<u8>, mid: VDisk<L>, b: Seq<u8>, end: VDisk<L>, file: Seq<u8>)
    requires
        d.reads_on(a, &mid, file),
        mid.reads_on(b, &end, file),
    ensures
        d.reads_on(a + b, &end, file),
{
    assert((a + b) + end.rest(file) == a + (b + end.rest(file)));
    let n = (a + b).len() as int;
    assert forall|f: Fault| !#[trigger] d.trouble(file, n, 0, Cause::Damage, f) by {
        assert(!mid.trouble(file, b.len() as int, 0, Cause::Damage, f));
    }
    assert forall|asked: int, extra: nat, f: Fault| #[trigger]
        end.trouble(file, asked, extra, Cause::Damage, f) == d.trouble(file, asked + n, extra, Cause::Damage, f) by {
        assert(mid.trouble(file, asked + b.len(), extra, Cause::Damage, f) == d.trouble(
            file,
            asked + b.len() + a.len(),
            extra,
            Cause::Damage,
            f,
        ));
    }
    assert forall|asked: int, extra: nat, f: Fault| #[trigger]
        end.trouble(file, asked, extra, Cause::Memory, f) implies d.trouble(
        file,
        asked + n,
        extra,
        Cause::Memory,
        f,
    ) by {
        assert(mid.trouble(file, asked + b.len(), extra, Cause::Memory, f));
    }
}

proof fn lemma_then_same<L: Layout>(d: VDisk<L>, a: Seq<u8>, mid: VDisk<L>, end: VDisk<L>, file: Seq<u8>)
    requires
        d.reads_on(a, &mid, file),
        end.same_as(&mid, file),
        end.size == mid.size,
        end.pos == mid.pos,
    ensures
        d.reads_on(a, &end, file),
        a.len() == 0 && mid.same_as(&d, file) ==> end.same_as(&d, file),
{
    assert forall|asked: int, extra: nat, f: Fault| #[trigger]
        end.trouble(file, asked, extra, Cause::Memory, f) implies d.trouble(
        file,
        asked + a.len(),
        extra,
        Cause::Memory,
        f,
    ) by {
        assert(mid.trouble(file, asked, extra, Cause::Memory, f));
    }
}

/// The bytes of some reads, one after another.
pub open spec fn given(reads: Seq<Seq<u8>>) -> Seq<u8>
    decreases reads.len(),
{
    if reads.len() == 0 {
        Seq::empty()
    } else {
        given(reads.drop_last()) + reads.last()
    }
}

/// Is that a run of reads, of any sizes, that takes a disk from its start to its end?
/// `disks[i]` is the disk before `reads[i]`.
pub open spec fn runs<L: Layout>(disks: Seq<VDisk<L>>, reads: Seq<Seq<u8>>, file: Seq<u8>) -> bool {
    &&& disks.len() == reads.len() + 1
    &&& disks[0].wf()
    &&& disks[0].pos == 0
    &&& forall|i: int| #![trigger reads[i]]
        0 <= i < reads.len() ==> disks[i].reads_on(reads[i], &disks[i + 1], file)
    &&& disks.last().wf()
    &&& disks.last().pos == disks[0].size
}

/// Are these the pieces of the last `left` bytes of a disk, in order: those that the layout
/// gives until it ends or they fill the disk?
pub open spec fn lays<L: Layout>(l: L, src: Layers, file: Seq<u8>, pieces: Seq<Piece>, left: nat) -> bool
    decreases pieces.len(),
{
    if left == 0 {
        pieces.len() == 0
    } else {
        match l.step(src, file) {
            Ok(Some((p, next))) => pieces.len() > 0 && pieces[0] == p && lays(
                next,
                src,
                file,
                pieces.skip(1),
                (left - least(p.len as int, left as int)) as nat,
            ),
            Ok(None) => pieces.len() == 0,
            Err(_) => false,
        }
    }
}

/// The last `left` bytes of a disk of `size` bytes: the pieces in order, cut off at its end,
/// and zeros after the last.
pub open spec fn laid(src: Layers, file: Seq<u8>, pieces: Seq<Piece>, size: u64, left: nat) -> Seq<u8>
    decreases pieces.len(),
{
    if pieces.len() == 0 {
        zeros(left)
    } else {
        let n = least(pieces[0].len as int, left as int) as nat;
        piece_bytes(src, file, (size - left) as u64, pieces[0], n) + laid(
            src,
            file,
            pieces.skip(1),
            size,
            (left - n) as nat,
        )
    }
}

/// A disk that is read to its end gives the same bytes however much each read asks for: all of
/// them, the ones that the map describes, and nothing is wrong with any.
pub proof fn law_reads_make_the_disk<L: Layout>(disks: Seq<VDisk<L>>, reads: Seq<Seq<u8>>, file: Seq<u8>)
    requires
        runs(disks, reads, file),
    ensures
        given(reads) == disks[0].rest(file),
        given(reads).len() == disks[0].size,
        forall|f: Fault| !#[trigger] disks[0].trouble(file, disks[0].size as int, 0, Cause::Damage, f),
{
    lemma_reads_so_far(disks, reads, file, reads.len() as int);
    assert(reads.take(reads.len() as int) == reads);
    let end = disks.last();
    lemma_rest_len(end, file);
    assert(given(reads) + end.rest(file) == given(reads));
}

/// Two runs of reads over one disk give the same bytes, whatever each read asks for.
pub proof fn law_sizes_make_no_difference<L: Layout>(
    disks: Seq<VDisk<L>>,
    reads: Seq<Seq<u8>>,
    others: Seq<VDisk<L>>,
    other_reads: Seq<Seq<u8>>,
    file: Seq<u8>,
)
    requires
        runs(disks, reads, file),
        runs(others, other_reads, file),
        disks[0] == others[0],
    ensures
        given(reads) == given(other_reads),
{
    law_reads_make_the_disk(disks, reads, file);
    law_reads_make_the_disk(others, other_reads, file);
}

/// A disk that is read to its end is its layout's pieces in order, cut off at the disk's size,
/// with zeros after the last one.
pub proof fn law_disk_is_its_pieces<L: Layout>(
    disks: Seq<VDisk<L>>,
    reads: Seq<Seq<u8>>,
    file: Seq<u8>,
    layout: L,
    pieces: Seq<Piece>,
)
    requires
        runs(disks, reads, file),
        disks[0].opens(layout, disks[0].src@, file),
        lays(layout, disks[0].src@, file, pieces, disks[0].size as nat),
    ensures
        given(reads) == laid(disks[0].src@, file, pieces, disks[0].size, disks[0].size as nat),
{
    let d = disks[0];
    law_reads_make_the_disk(disks, reads, file);
    assert forall|f: Fault| !#[trigger] stream_trouble(
        layout,
        d.src@,
        file,
        d.size,
        d.size as nat,
        0,
        d.size as int,
        0,
        Cause::Damage,
        f,
    ) by {
        assert(!d.trouble(file, d.size as int, 0, Cause::Damage, f));
    }
    lemma_stream_is_laid(layout, d.src@, file, d.size, d.size as nat, 0, pieces);
}

/// What a map at `pos` of a disk has to say next so that the disk holds `byte`, if nothing is
/// wrong with it: the bytes of its next piece, and a map that is as good after it.
pub open spec fn leads<L: Layout>(
    m: L,
    src: Layers,
    file: Seq<u8>,
    size: u64,
    pos: int,
    good: spec_fn(L, int) -> bool,
    byte: spec_fn(int) -> u8,
) -> bool {
    match m.step(src, file) {
        Err(_) => true,
        Ok(None) => forall|p: int| pos <= p < size ==> #[trigger] byte(p) == 0,
        Ok(Some((p, next))) => if p.len == 0 {
            good(next, pos)
        } else {
            (p.run matches Run::Packed(packed) ==> block_of(src, file, pos as u64, p.len, packed) is Ok) ==> {
                &&& forall|j: int|
                    0 <= j < least(p.len as int, size - pos) ==> #[trigger] piece_bytes(
                        src,
                        file,
                        pos as u64,
                        p,
                        least(p.len as int, size - pos) as nat,
                    )[j] == byte(pos + j)
                &&& pos + p.len < size ==> good(next, pos + p.len)
            }
        },
    }
}

/// A disk that is read to its end holds `byte` at each place, if every map that is good leads on
/// so, and the first one is good.
pub proof fn law_disk_holds<L: Layout>(
    disks: Seq<VDisk<L>>,
    reads: Seq<Seq<u8>>,
    file: Seq<u8>,
    layout: L,
    good: spec_fn(L, int) -> bool,
    byte: spec_fn(int) -> u8,
)
    requires
        runs(disks, reads, file),
        disks[0].opens(layout, disks[0].src@, file),
        good(layout, 0),
        forall|m: L, pos: int| #[trigger]
            good(m, pos) && 0 <= pos < disks[0].size ==> leads(
                m,
                disks[0].src@,
                file,
                disks[0].size,
                pos,
                good,
                byte,
            ),
    ensures
        given(reads).len() == disks[0].size,
        forall|p: int| 0 <= p < disks[0].size ==> #[trigger] given(reads)[p] == byte(p),
{
    let d = disks[0];
    law_reads_make_the_disk(disks, reads, file);
    assert forall|f: Fault| !#[trigger] stream_trouble(
        layout,
        d.src@,
        file,
        d.size,
        d.size as nat,
        0,
        d.size as int,
        0,
        Cause::Damage,
        f,
    ) by {
        assert(!d.trouble(file, d.size as int, 0, Cause::Damage, f));
    }
    lemma_stream_holds(layout, d.src@, file, d.size, d.size as nat, 0, good, byte);
    assert forall|p: int| 0 <= p < d.size implies #[trigger] given(reads)[p] == byte(p) by {
        assert(stream(layout, d.src@, file, d.size, d.size as nat, 0)[p] == byte(0 + p));
    }
}

proof fn lemma_stream_holds<L: Layout>(
    l: L,
    src: Layers,
    file: Seq<u8>,
    size: u64,
    left: nat,
    empty: nat,
    good: spec_fn(L, int) -> bool,
    byte: spec_fn(int) -> u8,
)
    requires
        left <= size,
        left > 0 ==> good(l, size - left),
        forall|m: L, pos: int| #[trigger]
            good(m, pos) && 0 <= pos < size ==> leads(m, src, file, size, pos, good, byte),
        forall|f: Fault| !#[trigger] stream_trouble(l, src, file, size, left, empty, left as int, 0, Cause::Damage, f),
    ensures
        forall|i: int|
            0 <= i < left ==> #[trigger] stream(l, src, file, size, left, empty)[i] == byte(size - left + i),
    decreases left, MAX_EMPTY + 1 - empty,
{
    if left > 0 {
        let pos = size - left;
        assert(leads(l, src, file, size, pos, good, byte));
        match l.step(src, file) {
            Err(e) => {
                assert(stream_trouble(l, src, file, size, left, empty, left as int, 0, Cause::Damage, e));
            },
            Ok(None) => {
                assert forall|i: int| 0 <= i < left implies #[trigger] stream(l, src, file, size, left, empty)[i]
                    == byte(pos + i) by {
                    assert(zeros(left)[i] == 0);
                }
            },
            Ok(Some((p, next))) => if p.len == 0 {
                if empty >= MAX_EMPTY {
                    let f = bad_fault("the image is damaged (its map goes nowhere)"@);
                    assert(stream_trouble(l, src, file, size, left, empty, left as int, 0, Cause::Damage, f));
                } else {
                    assert forall|f: Fault| !#[trigger] stream_trouble(
                        next,
                        src,
                        file,
                        size,
                        left,
                        empty + 1,
                        left as int,
                        0,
                        Cause::Damage,
                        f,
                    ) by {
                        assert(!stream_trouble(l, src, file, size, left, empty, left as int, 0, Cause::Damage, f));
                    }
                    lemma_stream_holds(next, src, file, size, left, empty + 1, good, byte);
                    assert forall|i: int| 0 <= i < left implies #[trigger] stream(l, src, file, size, left, empty)[i]
                        == byte(pos + i) by {
                        assert(stream(next, src, file, size, left, empty + 1)[i] == byte(size - left + i));
                    }
                }
            } else {
                let n = least(p.len as int, left as int) as nat;
                if let Some(e) = claim_fault(p) {
                    assert(stream_trouble(l, src, file, size, left, empty, left as int, 0, Cause::Damage, e));
                }
                if let Run::Packed(packed) = p.run {
                    if let Err(e) = block_of(src, file, pos as u64, p.len, packed) {
                        assert(piece_trouble(src, file, pos as u64, p, n as int, Cause::Damage, e));
                        assert(stream_trouble(l, src, file, size, left, empty, left as int, 0, Cause::Damage, e));
                    }
                }
                assert forall|f: Fault| !#[trigger] stream_trouble(
                    next,
                    src,
                    file,
                    size,
                    (left - n) as nat,
                    0,
                    left - n,
                    0,
                    Cause::Damage,
                    f,
                ) by {
                    assert(!stream_trouble(l, src, file, size, left, empty, left as int, 0, Cause::Damage, f));
                }
                lemma_stream_holds(next, src, file, size, (left - n) as nat, 0, good, byte);
                let first = piece_bytes(src, file, pos as u64, p, n);
                let rest = stream(next, src, file, size, (left - n) as nat, 0);
                assert(first.len() == n);
                assert(size - pos == left);
                lemma_stream_len(next, src, file, size, (left - n) as nat, 0);
                assert(first == piece_bytes(src, file, pos as u64, p, least(p.len as int, size - pos) as nat));
                assert(p.run matches Run::Packed(packed) ==> block_of(src, file, pos as u64, p.len, packed) is Ok);
                assert(stream(l, src, file, size, left, empty) == first + rest);
                assert forall|i: int| 0 <= i < left implies #[trigger] stream(l, src, file, size, left, empty)[i]
                    == byte(pos + i) by {
                    if i < n {
                        assert(piece_bytes(src, file, pos as u64, p, least(p.len as int, size - pos) as nat)[i] == byte(
                            pos + i,
                        ));
                    } else {
                        assert((first + rest)[i] == rest[i - n]);
                        assert(size - (left - n) + (i - n) == pos + i);
                        assert(rest[i - n] == byte(size - (left - n) as nat + (i - n)));
                    }
                }
            },
        }
        assert forall|i: int| 0 <= i < left implies #[trigger] stream(l, src, file, size, left, empty)[i] == byte(
            size - left + i,
        ) by {
            assert(stream(l, src, file, size, left, empty)[i] == byte(pos + i));
        }
    }
}

/// The same of a list of pieces: those that lie behind the disk's end make no difference.
pub proof fn law_disk_is_its_list(disks: Seq<VDisk<List>>, reads: Seq<Seq<u8>>, file: Seq<u8>, list: List)
    requires
        runs(disks, reads, file),
        list.next == 0,
        disks[0].opens(list, disks[0].src@, file),
    ensures
        given(reads) == laid(disks[0].src@, file, list.pieces@, disks[0].size, disks[0].size as nat),
{
    let d = disks[0];
    assert(list.pieces@.skip(0) == list.pieces@);
    lemma_list_lays(list, d.src@, file, d.size, d.size as nat);
    law_disk_is_its_pieces(disks, reads, file, list, first_pieces(list.pieces@, d.size as nat));
}

/// The pieces of a list that lie on the last `left` bytes of a disk.
spec fn first_pieces(pieces: Seq<Piece>, left: nat) -> Seq<Piece>
    decreases pieces.len(),
{
    if left == 0 || pieces.len() == 0 {
        Seq::empty()
    } else {
        seq![pieces[0]] + first_pieces(pieces.skip(1), (left - least(pieces[0].len as int, left as int)) as nat)
    }
}

proof fn lemma_list_lays(l: List, src: Layers, file: Seq<u8>, size: u64, left: nat)
    requires
        l.wf(),
    ensures
        lays(l, src, file, first_pieces(l.pieces@.skip(l.next as int), left), left),
        laid(src, file, first_pieces(l.pieces@.skip(l.next as int), left), size, left) == laid(
            src,
            file,
            l.pieces@.skip(l.next as int),
            size,
            left,
        ),
    decreases l.pieces@.len() - l.next,
{
    let all = l.pieces@.skip(l.next as int);
    let some = first_pieces(all, left);
    if left == 0 {
        lemma_nothing_laid(src, file, all, size);
    } else if all.len() > 0 {
        assert(l.next < l.pieces.len());
        let next = List { next: (l.next + 1) as usize, ..l };
        let n = least(all[0].len as int, left as int) as nat;
        lemma_list_lays(next, src, file, size, (left - n) as nat);
        assert(all.skip(1) == l.pieces@.skip(l.next + 1));
        assert(some.skip(1) == first_pieces(all.skip(1), (left - n) as nat));
    }
}

/// Nothing is laid behind the end of a disk.
proof fn lemma_nothing_laid(src: Layers, file: Seq<u8>, pieces: Seq<Piece>, size: u64)
    ensures
        laid(src, file, pieces, size, 0) == zeros(0),
    decreases pieces.len(),
{
    if pieces.len() > 0 {
        lemma_nothing_laid(src, file, pieces.skip(1), size);
        assert(piece_bytes(src, file, size, pieces[0], 0) =~= Seq::<u8>::empty());
    }
}

proof fn lemma_stream_is_laid<L: Layout>(
    l: L,
    src: Layers,
    file: Seq<u8>,
    size: u64,
    left: nat,
    empty: nat,
    pieces: Seq<Piece>,
)
    requires
        lays(l, src, file, pieces, left),
        forall|f: Fault| !#[trigger] stream_trouble(l, src, file, size, left, empty, left as int, 0, Cause::Damage, f),
    ensures
        stream(l, src, file, size, left, empty) == laid(src, file, pieces, size, left),
    decreases pieces.len(),
{
    if left > 0 {
        if let Ok(Some((p, next))) = l.step(src, file) {
            let n = least(p.len as int, left as int) as nat;
            let more = if p.len == 0 {
                empty + 1
            } else {
                0
            };
            if p.len == 0 && empty >= MAX_EMPTY {
                let f = bad_fault("the image is damaged (its map goes nowhere)"@);
                assert(stream_trouble(l, src, file, size, left, empty, left as int, 0, Cause::Damage, f));
            }
            assert forall|f: Fault| !#[trigger] stream_trouble(
                next,
                src,
                file,
                size,
                (left - n) as nat,
                more,
                left - n,
                0,
                Cause::Damage,
                f,
            ) by {
                assert(!stream_trouble(l, src, file, size, left, empty, left as int, 0, Cause::Damage, f));
                if let Some(e) = claim_fault(p) {
                    if p.len > 0 {
                        assert(stream_trouble(l, src, file, size, left, empty, left as int, 0, Cause::Damage, e));
                    }
                }
            }
            lemma_stream_is_laid(next, src, file, size, (left - n) as nat, more, pieces.skip(1));
            assert(stream(l, src, file, size, left, empty) == piece_bytes(src, file, (size - left) as u64, p, n)
                + stream(next, src, file, size, (left - n) as nat, more));
        }
    }
}

proof fn lemma_reads_so_far<L: Layout>(disks: Seq<VDisk<L>>, reads: Seq<Seq<u8>>, file: Seq<u8>, n: int)
    requires
        disks.len() == reads.len() + 1,
        disks[0].wf(),
        disks[0].pos == 0,
        forall|i: int| #![trigger reads[i]] 0 <= i < reads.len() ==> disks[i].reads_on(reads[i], &disks[i + 1], file),
        0 <= n <= reads.len(),
    ensures
        disks[0].reads_on(given(reads.take(n)), &disks[n], file),
    decreases n,
{
    if n == 0 {
        assert(reads.take(0) == Seq::<Seq<u8>>::empty());
        lemma_reads_nothing(disks[0], file);
    } else {
        lemma_reads_so_far(disks, reads, file, n - 1);
        assert(reads.take(n).drop_last() == reads.take(n - 1));
        assert(disks[n - 1].reads_on(reads[n - 1], &disks[n], file));
        lemma_reads_on(disks[0], given(reads.take(n - 1)), disks[n - 1], reads[n - 1], disks[n], file);
    }
}

proof fn lemma_slots_len(slots: Seq<Slot>, src: Layers, file: Seq<u8>)
    requires
        forall|i: int| 0 <= i < slots.len() ==> (#[trigger] slots[i]).wf(),
    ensures
        slots_bytes(slots, src, file).len() == slots_left(slots),
    decreases slots.len(),
{
    if slots.len() > 0 {
        assert(slots[slots.len() - 1].wf());
        assert forall|i: int| 0 <= i < slots.drop_last().len() implies (#[trigger] slots.drop_last()[i]).wf() by {
            assert(slots[i].wf());
        }
        lemma_slots_len(slots.drop_last(), src, file);
    }
}

proof fn lemma_stream_len<L: Layout>(l: L, src: Layers, file: Seq<u8>, size: u64, left: nat, empty: nat)
    ensures
        stream(l, src, file, size, left, empty).len() == left,
    decreases left, MAX_EMPTY + 1 - empty,
{
    if left > 0 {
        if let Ok(Some((p, next))) = l.step(src, file) {
            if p.len == 0 {
                if empty < MAX_EMPTY {
                    lemma_stream_len(next, src, file, size, left, empty + 1);
                }
            } else {
                let n = least(p.len as int, left as int) as nat;
                lemma_stream_len(next, src, file, size, (left - n) as nat, 0);
            }
        }
    }
}

/// What is left of a disk is as long as the disk says.
proof fn lemma_rest_len<L: Layout>(d: VDisk<L>, file: Seq<u8>)
    requires
        d.wf(),
    ensures
        d.rest(file).len() == d.size - d.pos,
{
    lemma_slots_len(d.ahead@, d.src@, file);
    lemma_stream_len(d.layout, d.src@, file, d.size, (d.size - d.mapped) as nat, d.empty as nat);
}

spec fn slot_bytes_of(slot: Option<Slot>, src: Layers, file: Seq<u8>) -> Seq<u8> {
    match slot {
        Some(s) => s.bytes(src, file),
        None => Seq::empty(),
    }
}

/// Is `added` the first `len` bytes of a piece, after `last` if that was merged with it?
spec fn slot_for(added: Slot, last: Option<Slot>, piece: Piece, pos: u64, len: u64) -> bool {
    match (piece.run, last) {
        (Run::Zeros, None) => added == (Slot::Zeros { len }),
        (Run::Stored(offset), None) => added == (Slot::Stored { offset, len }),
        (Run::Packed(packed), None) => added == (Slot::Packed {
            len,
            pos,
            need: piece.len,
            packed,
            data: None,
            at: 0,
        }) && packed.size <= MAX_BLOCK && packed.len <= MAX_BLOCK,
        (Run::Zeros, Some(Slot::Zeros { len: l })) => l + len <= u64::MAX && added == (Slot::Zeros {
            len: (l + len) as u64,
        }),
        (Run::Stored(offset), Some(Slot::Stored { offset: o, len: l })) => l + len <= u64::MAX && o + l == offset
            && added == (Slot::Stored { offset: o, len: (l + len) as u64 }),
        _ => false,
    }
}

/// A piece that was pushed adds its bytes, and what can go wrong with them.
#[verifier::spinoff_prover]
#[verifier::rlimit(60)]
proof fn lemma_pushed(
    before: Seq<Slot>,
    now: Seq<Slot>,
    added: Slot,
    merged: bool,
    src: Layers,
    piece: Piece,
    pos: u64,
    len: u64,
)
    requires
        0 < len <= piece.len,
        forall|i: int| 0 <= i < before.len() ==> (#[trigger] before[i]).wf(),
        merged ==> before.len() > 0,
        now == (if merged {
            before.drop_last().push(added)
        } else {
            before.push(added)
        }),
        slot_for(
            added,
            if merged {
                Some(before.last())
            } else {
                None
            },
            piece,
            pos,
            len,
        ),
    ensures
        forall|i: int| 0 <= i < now.len() ==> (#[trigger] now[i]).wf(),
        slots_left(now) == slots_left(before) + len,
        forall|file: Seq<u8>| #[trigger]
            slots_bytes(now, src, file) == slots_bytes(before, src, file) + piece_bytes(
                src,
                file,
                pos,
                piece,
                len as nat,
            ),
        forall|file: Seq<u8>, asked: int, why: Cause, f: Fault| #[trigger]
            slots_trouble(now, src, file, asked, why, f) == (slots_trouble(before, src, file, asked, why, f)
                || piece_trouble(src, file, pos, piece, least(len as int, asked - slots_left(before)), why, f)),
{
    if !merged {
        lemma_slots_push(before, added, src, Seq::empty());
        assert forall|file: Seq<u8>| #[trigger]
            slots_bytes(now, src, file) == slots_bytes(before, src, file) + piece_bytes(
                src,
                file,
                pos,
                piece,
                len as nat,
            ) by {
            lemma_slots_push(before, added, src, file);
            assert(added.bytes(src, file) == piece_bytes(src, file, pos, piece, len as nat));
        }
        assert forall|file: Seq<u8>, asked: int, why: Cause, f: Fault| #[trigger]
            slots_trouble(now, src, file, asked, why, f) == (slots_trouble(before, src, file, asked, why, f)
                || piece_trouble(src, file, pos, piece, least(len as int, asked - slots_left(before)), why, f)) by {
            lemma_slots_push(before, added, src, file);
        }
    } else {
        let base = before.drop_last();
        let last = before.last();
        assert(base.push(last) == before);
        assert(before[before.len() - 1].wf());
        lemma_slots_push(base, last, src, Seq::empty());
        lemma_slots_push(base, added, src, Seq::empty());
        assert forall|file: Seq<u8>| #[trigger]
            slots_bytes(now, src, file) == slots_bytes(before, src, file) + piece_bytes(
                src,
                file,
                pos,
                piece,
                len as nat,
            ) by {
            lemma_slots_push(base, added, src, file);
            lemma_slots_push(base, last, src, file);
            let x = piece_bytes(src, file, pos, piece, len as nat);
            assert(added.bytes(src, file) == last.bytes(src, file) + x);
            assert(slots_bytes(base, src, file) + (last.bytes(src, file) + x) == (slots_bytes(base, src, file)
                + last.bytes(src, file)) + x);
        }
        assert forall|file: Seq<u8>, asked: int, why: Cause, f: Fault| #[trigger]
            slots_trouble(now, src, file, asked, why, f) == (slots_trouble(before, src, file, asked, why, f)
                || piece_trouble(src, file, pos, piece, least(len as int, asked - slots_left(before)), why, f)) by {
            lemma_slots_push(base, added, src, file);
            lemma_slots_push(base, last, src, file);
            let a = asked - slots_left(base);
            if let (Slot::Stored { offset: o, len: l }, Run::Stored(offset)) = (last, piece.run) {
                if added.trouble(src, file, a, why, f) {
                    let n = least(l + len, a);
                    let end = choose|end: int| o < end <= o + n && #[trigger] refused_at(src, end, f);
                    assert(refused_at(src, end, f));
                }
                if last.trouble(src, file, a, why, f) {
                    let n = least(l as int, a);
                    let end = choose|end: int| o < end <= o + n && #[trigger] refused_at(src, end, f);
                    assert(refused_at(src, end, f));
                }
                let k = least(len as int, a - l);
                if piece_trouble(src, file, pos, piece, k, why, f) {
                    let end = choose|end: int| offset < end <= offset + k && #[trigger] refused_at(src, end, f);
                    assert(refused_at(src, end, f));
                }
            }
        }
    }
}

/// What can go wrong with what is left of a slot.
spec fn left_trouble(slot: Option<Slot>, src: Layers, file: Seq<u8>, asked: int, why: Cause, f: Fault) -> bool {
    match slot {
        Some(s) => s.trouble(src, file, asked, why, f),
        None => false,
    }
}

/// Is `out` what comes first of a slot, with nothing wrong, and `left` what is left of it?
spec fn taken_of(slot: Slot, out: Seq<u8>, left: Option<Slot>, src: Layers, file: Seq<u8>) -> bool {
    &&& slot.bytes(src, file) == out + slot_bytes_of(left, src, file)
    &&& forall|f: Fault| !#[trigger] slot.trouble(src, file, out.len() as int, Cause::Damage, f)
    &&& forall|asked: int, f: Fault| #[trigger]
        left_trouble(left, src, file, asked, Cause::Damage, f) == slot.trouble(
            src,
            file,
            asked + out.len(),
            Cause::Damage,
            f,
        )
    &&& forall|asked: int, f: Fault| #[trigger]
        left_trouble(left, src, file, asked, Cause::Memory, f) ==> slot.trouble(
            src,
            file,
            asked + out.len(),
            Cause::Memory,
            f,
        )
}

proof fn lemma_taken_trouble(
    all: Seq<Slot>,
    now: Seq<Slot>,
    left: Option<Slot>,
    n: int,
    src: Layers,
    file: Seq<u8>,
    asked: int,
    why: Cause,
    f: Fault,
)
    requires
        all.len() > 0,
        now == (match left {
            Some(s) => seq![s] + all.skip(1),
            None => all.skip(1),
        }),
        all[0].left() == n + (match left {
            Some(s) => s.left(),
            None => 0,
        }),
    ensures
        ({
            let rest = slots_trouble(all.skip(1), src, file, asked + n - all[0].left(), why, f);
            &&& slots_trouble(now, src, file, asked, why, f) == (left_trouble(left, src, file, asked, why, f) || rest)
            &&& slots_trouble(all, src, file, asked + n, why, f) == (all[0].trouble(src, file, asked + n, why, f) || rest)
        }),
{
    lemma_trouble_first(all, src, file, asked + n, why, f);
    if left is Some {
        assert(now.skip(1) == all.skip(1));
        lemma_trouble_first(now, src, file, asked, why, f);
    }
}

/// Is `is` the disk `was` after `n` bytes of its first slot, of which `left` is left?
spec fn after_take<L: Layout>(was: VDisk<L>, is: VDisk<L>, left: Option<Slot>, n: nat) -> bool {
    &&& was.wf()
    &&& was.ahead@.len() > 0
    &&& is.src == was.src
    &&& is.layout == was.layout
    &&& is.size == was.size
    &&& is.pos == was.pos + n
    &&& is.mapped == was.mapped
    &&& is.map_done == was.map_done
    &&& is.empty == was.empty
    &&& is.ahead@ == (match left {
        Some(s) => seq![s] + was.ahead@.skip(1),
        None => was.ahead@.skip(1),
    })
    &&& was.ahead@[0].left() == n + (match left {
        Some(s) => s.left(),
        None => 0,
    })
}

proof fn lemma_taken_bytes<L: Layout>(was: VDisk<L>, is: VDisk<L>, left: Option<Slot>, out: Seq<u8>, file: Seq<u8>)
    requires
        after_take(was, is, left, out.len()),
        was.ahead@[0].bytes(was.src@, file) == out + slot_bytes_of(left, was.src@, file),
    ensures
        out + is.rest(file) == was.rest(file),
{
    let src = was.src@;
    let all = was.ahead@;
    let now = is.ahead@;
    let others = all.skip(1);
    lemma_slots_first(all, src, file);
    if left is Some {
        assert(now.skip(1) == others);
        assert(now[0] == left->0);
        lemma_slots_first(now, src, file);
    } else {
        assert(now == others);
    }
    let a = slot_bytes_of(left, src, file);
    let b = slots_bytes(others, src, file);
    assert(slots_bytes(now, src, file) == a + b);
    assert(out + (a + b) == (out + a) + b);
    let tail = if is.map_done {
        zeros((is.size - is.mapped) as nat)
    } else {
        stream(is.layout, src, file, is.size, (is.size - is.mapped) as nat, is.empty as nat)
    };
    assert(out + (slots_bytes(now, src, file) + tail) == (out + slots_bytes(now, src, file)) + tail);
}

proof fn lemma_taken_at<L: Layout>(
    was: VDisk<L>,
    is: VDisk<L>,
    left: Option<Slot>,
    n: nat,
    file: Seq<u8>,
    asked: int,
    extra: nat,
    why: Cause,
    f: Fault,
)
    requires
        after_take(was, is, left, n),
    ensures
        left_trouble(left, was.src@, file, asked, why, f) == was.ahead@[0].trouble(was.src@, file, asked + n, why, f)
            ==> is.trouble(file, asked, extra, why, f) == was.trouble(file, asked + n, extra, why, f),
        (left_trouble(left, was.src@, file, asked, why, f) ==> was.ahead@[0].trouble(
            was.src@,
            file,
            asked + n,
            why,
            f,
        )) ==> (is.trouble(file, asked, extra, why, f) ==> was.trouble(file, asked + n, extra, why, f)),
{
    lemma_taken_trouble(was.ahead@, is.ahead@, left, n as int, was.src@, file, asked, why, f);
    assert(asked - (is.mapped - is.pos) == asked + n - (was.mapped - was.pos));
}

proof fn lemma_taken_clear<L: Layout>(was: VDisk<L>, is: VDisk<L>, left: Option<Slot>, n: nat, file: Seq<u8>, f: Fault)
    requires
        after_take(was, is, left, n),
        !was.ahead@[0].trouble(was.src@, file, n as int, Cause::Damage, f),
    ensures
        !was.trouble(file, n as int, 0, Cause::Damage, f),
{
    let all = was.ahead@;
    lemma_trouble_first(all, was.src@, file, n as int, Cause::Damage, f);
    lemma_none_asked(all.skip(1), was.src@, file, n - all[0].left(), f);
    lemma_slots_first(all, was.src@, file);
}

/// What is taken of the first slot, and what is left, is what there was.
proof fn lemma_taken<L: Layout>(was: VDisk<L>, is: VDisk<L>, left: Option<Slot>, out: Seq<u8>, file: Seq<u8>)
    requires
        after_take(was, is, left, out.len()),
        taken_of(was.ahead@[0], out, left, was.src@, file),
    ensures
        was.reads_on(out, &is, file),
{
    let n = out.len();
    lemma_taken_bytes(was, is, left, out, file);
    assert forall|f: Fault| !#[trigger] was.trouble(file, n as int, 0, Cause::Damage, f) by {
        assert(!was.ahead@[0].trouble(was.src@, file, n as int, Cause::Damage, f));
        lemma_taken_clear(was, is, left, n, file, f);
    }
    assert forall|asked: int, extra: nat, f: Fault| #[trigger]
        is.trouble(file, asked, extra, Cause::Damage, f) == was.trouble(file, asked + n, extra, Cause::Damage, f) by {
        assert(left_trouble(left, was.src@, file, asked, Cause::Damage, f) == was.ahead@[0].trouble(
            was.src@,
            file,
            asked + n,
            Cause::Damage,
            f,
        ));
        lemma_taken_at(was, is, left, n, file, asked, extra, Cause::Damage, f);
    }
    assert forall|asked: int, extra: nat, f: Fault| #[trigger]
        is.trouble(file, asked, extra, Cause::Memory, f) implies was.trouble(
        file,
        asked + n,
        extra,
        Cause::Memory,
        f,
    ) by {
        assert(left_trouble(left, was.src@, file, asked, Cause::Memory, f) ==> was.ahead@[0].trouble(
            was.src@,
            file,
            asked + n,
            Cause::Memory,
            f,
        ));
        lemma_taken_at(was, is, left, n, file, asked, extra, Cause::Memory, f);
    }
}

/// Takes up to `room` bytes of a slot. Gives back what is left of it.
fn take_from(slot: Slot, src: &Source, have: &Loaded, room: usize) -> (r: (Result<Vec<u8>, Stop>, Option<Slot>))
    requires
        slot.wf(),
        src@.wf(),
        room > 0,
    ensures
        match r.0 {
            Ok(v) => {
                &&& 0 < v@.len() <= room
                &&& slot.left() == v@.len() + (match r.1 {
                    Some(s) => s.left(),
                    None => 0,
                })
                &&& r.1 matches Some(s) ==> s.wf()
                &&& forall|file: Seq<u8>| #[trigger]
                    have.shows(src@, file) ==> taken_of(slot, v@, r.1, src@, file)
            },
            Err(Stop::Need { offset, len }) => r.1 == Some(slot) && have.lacks(src@, offset, len),
            Err(Stop::Failed(e)) => r.1 == Some(slot) && ((forall|file: Seq<u8>| #[trigger]
                have.shows(src@, file) ==> slot.trouble(src@, file, room as int, Cause::Damage, e@)) || (forall|
                file: Seq<u8>,
            | #[trigger]
                have.shows(src@, file) ==> slot.trouble(src@, file, room as int, Cause::Memory, e@))),
        },
{
    match slot {
        Slot::Zeros { len } => {
            let k: usize = if len <= room as u64 {
                len as usize
            } else {
                room
            };
            let left: Option<Slot> = if k as u64 == len {
                None
            } else {
                Some(Slot::Zeros { len: len - k as u64 })
            };
            let out: Vec<u8> = zero_bytes(k);
            proof {
                assert forall|file: Seq<u8>| #[trigger] have.shows(src@, file) implies taken_of(
                    slot,
                    out@,
                    left,
                    src@,
                    file,
                ) by {
                    assert(slot.bytes(src@, file) == out@ + slot_bytes_of(left, src@, file));
                }
            }
            (Ok(out), left)
        },
        Slot::Stored { offset, len } => {
            let k: usize = if len <= room as u64 {
                len as usize
            } else {
                room
            };
            let out: Vec<u8> = match src.read_vec(have, offset, k) {
                Ok(v) => v,
                Err(s) => {
                    proof {
                        if let Stop::Failed(ref e) = s {
                            assert forall|file: Seq<u8>| #[trigger] have.shows(src@, file) implies slot.trouble(
                                src@,
                                file,
                                room as int,
                                Cause::Damage,
                                e@,
                            ) by {
                                assert(refused_at(src@, offset + k, e@));
                            }
                        }
                    }
                    return (Err(s), Some(Slot::Stored { offset, len }));
                },
            };
            let left: Option<Slot> = if k as u64 == len {
                None
            } else {
                Some(Slot::Stored { offset: offset + k as u64, len: len - k as u64 })
            };
            proof {
                assert forall|file: Seq<u8>| #[trigger] have.shows(src@, file) implies taken_of(
                    slot,
                    out@,
                    left,
                    src@,
                    file,
                ) by {
                    assert(src@.read(file, offset, k as nat) == Ok::<Seq<u8>, Fault>(out@));
                    assert(slot.bytes(src@, file) == out@ + slot_bytes_of(left, src@, file));
                    assert forall|asked: int, f: Fault| #[trigger]
                        left_trouble(left, src@, file, asked, Cause::Damage, f) == slot.trouble(
                            src@,
                            file,
                            asked + k,
                            Cause::Damage,
                            f,
                        ) by {
                        let n = least(len as int, asked + k);
                        if slot.trouble(src@, file, asked + k, Cause::Damage, f) {
                            let end = choose|end: int| offset < end <= offset + n && #[trigger] refused_at(src@, end, f);
                            assert(end > offset + k);
                            assert(refused_at(src@, end, f));
                        }
                        if left_trouble(left, src@, file, asked, Cause::Damage, f) {
                            let m = least(len - k, asked);
                            let end = choose|end: int|
                                offset + k < end <= offset + k + m && #[trigger] refused_at(src@, end, f);
                            assert(refused_at(src@, end, f));
                        }
                    }
                }
            }
            (Ok(out), left)
        },
        Slot::Packed { len, pos, need, packed, data, at } => {
            let got: Vec<u8> = match data {
                Some(got) => got,
                None => match decode(src, have, pos, need, &packed) {
                    Ok(got) => got,
                    Err(s) => {
                        return (Err(s), Some(Slot::Packed { len, pos, need, packed, data: None, at }));
                    },
                },
            };
            let k: usize = if len - at <= room as u64 {
                (len - at) as usize
            } else {
                room
            };
            // Past what the block decoded to (allowed for VMDK grains): zeros.
            let out: Vec<u8> = padded_bytes(&got, at, k);
            let ghost got_bytes = got@;
            let left: Option<Slot> = if at + k as u64 == len {
                None
            } else {
                Some(Slot::Packed { len, pos, need, packed, data: Some(got), at: at + k as u64 })
            };
            proof {
                assert forall|file: Seq<u8>| #[trigger] have.shows(src@, file) implies taken_of(
                    slot,
                    out@,
                    left,
                    src@,
                    file,
                ) by {
                    assert(slot.bytes(src@, file) == padded(got_bytes, at as int, (len - at) as nat));
                    if left is Some {
                        assert(slot_bytes_of(left, src@, file) == padded(got_bytes, at + k, (len - at - k) as nat));
                    }
                    assert(slot.bytes(src@, file) == out@ + slot_bytes_of(left, src@, file));
                }
            }
            (Ok(out), left)
        },
    }
}

/// A piece moved from the map to the slots leaves the disk as it is.
proof fn lemma_filled<L: Layout>(was: VDisk<L>, now: VDisk<L>, piece: Piece, len: u64, file: Seq<u8>)
    requires
        was.wf(),
        !was.map_done,
        now.src == was.src,
        now.size == was.size,
        now.pos == was.pos,
        now.mapped == was.mapped + len,
        now.mapped <= now.size,
        now.map_done == (now.mapped >= now.size),
        now.empty == 0,
        piece.len > 0,
        len == least(piece.len as int, was.size - was.mapped),
        claim_fault(piece) is None,
        was.layout.step(was.src@, file) == Ok::<Option<(Piece, L)>, Fault>(Some((piece, now.layout))),
        slots_bytes(now.ahead@, was.src@, file) == slots_bytes(was.ahead@, was.src@, file) + piece_bytes(
            was.src@,
            file,
            was.mapped,
            piece,
            len as nat,
        ),
        forall|asked: int, why: Cause, f: Fault| #[trigger]
            slots_trouble(now.ahead@, was.src@, file, asked, why, f) == (slots_trouble(
                was.ahead@,
                was.src@,
                file,
                asked,
                why,
                f,
            ) || piece_trouble(
                was.src@,
                file,
                was.mapped,
                piece,
                least(len as int, asked - slots_left(was.ahead@)),
                why,
                f,
            )),
    ensures
        now.same_as(&was, file),
{
    let src = was.src@;
    let left = (was.size - was.mapped) as nat;
    let after = (now.size - now.mapped) as nat;
    let x = slots_bytes(was.ahead@, src, file);
    let p = piece_bytes(src, file, was.mapped, piece, len as nat);
    let tail = stream(now.layout, src, file, now.size, after, 0);
    assert(stream(was.layout, src, file, was.size, left, was.empty as nat) == p + tail);
    assert(was.rest(file) == x + (p + tail));
    if now.map_done {
        assert(tail == Seq::<u8>::empty());
        assert(zeros(0) == Seq::<u8>::empty());
        assert(now.rest(file) == (x + p) + Seq::<u8>::empty());
    } else {
        assert(now.rest(file) == (x + p) + tail);
    }
    assert((x + p) + tail == x + (p + tail));
    assert forall|asked: int, extra: nat, why: Cause, f: Fault| #[trigger]
        now.trouble(file, asked, extra, why, f) == was.trouble(file, asked, extra, why, f) by {
        let a = asked - (was.mapped - was.pos);
        assert(a - len == asked - (now.mapped - now.pos));
        let before = stream_trouble(was.layout, src, file, was.size, left, was.empty as nat, a, extra, why, f);
        let then_on = stream_trouble(now.layout, src, file, now.size, after, 0, a - len, extra, why, f);
        let here = piece_trouble(src, file, was.mapped, piece, least(len as int, a), why, f);
        assert(slots_trouble(now.ahead@, src, file, asked, why, f) == (slots_trouble(
            was.ahead@,
            src,
            file,
            asked,
            why,
            f,
        ) || here));
        if a + extra <= 0 {
            assert(!here);
            assert(!before);
            assert(!then_on);
        } else {
            assert(before == (here || then_on));
        }
    }
}

fn zero_bytes(n: usize) -> (v: Vec<u8>)
    ensures
        v@ == zeros(n as nat),
{
    let mut v: Vec<u8> = Vec::new();
    while v.len() < n
        invariant
            v@.len() <= n,
            v@ == zeros(v@.len()),
        decreases n - v@.len(),
    {
        v.push(0);
    }
    v
}

/// `n` bytes of `got` from `from` on, with zeros past its end.
fn padded_bytes(got: &[u8], from: u64, n: usize) -> (v: Vec<u8>)
    requires
        from + n <= u64::MAX,
    ensures
        v@ == padded(got@, from as int, n as nat),
{
    let mut v: Vec<u8> = Vec::new();
    while v.len() < n
        invariant
            v@.len() <= n,
            from + n <= u64::MAX,
            v@ == padded(got@, from as int, v@.len()),
        decreases n - v@.len(),
    {
        let at: u64 = from + v.len() as u64;
        let b: u8 = if at < got.len() as u64 {
            got[at as usize]
        } else {
            0
        };
        v.push(b);
    }
    v
}

/// Reads and decodes one block.
fn decode(src: &Source, have: &Loaded, pos: u64, need: u64, packed: &Packed) -> (r: Result<Vec<u8>, Stop>)
    requires
        src@.wf(),
        packed.size <= MAX_BLOCK,
        packed.len <= MAX_BLOCK,
    ensures
        match r {
            Ok(v) => v@.len() <= packed.size && forall|file: Seq<u8>| #[trigger]
                have.shows(src@, file) ==> block_of(src@, file, pos, need, *packed) == Ok::<Seq<u8>, Fault>(v@),
            Err(Stop::Need { offset, len }) => have.lacks(src@, offset, len),
            Err(Stop::Failed(e)) => (forall|file: Seq<u8>| #[trigger]
                have.shows(src@, file) ==> packed_trouble(src@, file, pos, need, *packed, Cause::Damage, e@)) || (
            forall|file: Seq<u8>| #[trigger]
                have.shows(src@, file) ==> packed_trouble(src@, file, pos, need, *packed, Cause::Memory, e@)),
        },
{
    let input: Vec<u8> = match src.read_upto(have, packed.offset, packed.len as usize) {
        Ok(v) => v,
        Err(Stop::Need { offset, len }) => {
            return Err(Stop::Need { offset, len });
        },
        Err(Stop::Failed(e)) => {
            return Err(Stop::Failed(damaged(pos, packed, e.what.as_str())));
        },
    };
    let mut got: Vec<u8> = Vec::new();
    match crate::engine::formats::codec::decode(packed.codec, &input, &mut got, packed.size as usize) {
        Ok(()) => {},
        Err(e) => {
            return Err(Stop::Failed(damaged(pos, packed, e.what.as_str())));
        },
    }
    if (got.len() as u64) < need && !packed.short_ok {
        let mut s: String = "it holds ".to_owned();
        s.append(size_text(got.len() as u64).as_str());
        s.append(" instead of ");
        s.append(size_text(need).as_str());
        return Err(Stop::Failed(damaged(pos, packed, s.as_str())));
    }
    Ok(got)
}

/// A table of fixed-size entries (a BAT, an L1 table) that is read a window at a time, so a
/// huge table never has to be in memory at once.
#[derive(Clone, Copy, Debug, PartialEq, Eq, Structural)]
pub struct Table {
    pub offset: u64,
    pub entries: u64,
    pub entry_size: usize,
}

/// Bytes of a table that are read at once.
pub const WINDOW: usize = 0x10_0000;

/// What is read of a table to get to one of its entries.
pub ghost struct Span {
    pub start: int,
    pub len: int,
    /// Where the entry starts.
    pub at: int,
}

impl Table {
    pub open spec fn wf(self) -> bool {
        0 < self.entry_size <= WINDOW
    }

    /// The window that entry `i` is in.
    pub open spec fn span(self, i: u64) -> Span {
        let per_window = WINDOW as int / self.entry_size as int;
        let first = i - i as int % per_window;
        let count = if per_window <= self.entries - first {
            per_window
        } else {
            self.entries - first
        };
        Span {
            start: self.offset + first * self.entry_size,
            len: count * self.entry_size,
            at: self.offset + i * self.entry_size,
        }
    }

    /// What reading entry `i` gives: its bytes, and none past the end of the table.
    pub open spec fn entry(self, src: Layers, file: Seq<u8>, i: u64) -> Result<Option<Seq<u8>>, Fault> {
        let w = self.span(i);
        if i >= self.entries {
            Ok(None)
        } else if w.start + w.len > u64::MAX {
            Err(crate::error::bad_fault("an offset is out of range"@))
        } else {
            match src.refusal(w.start as u64, w.len as nat) {
                Some(f) => Err(f),
                None => Ok(Some(src.bytes(file, w.at as u64, self.entry_size as nat))),
            }
        }
    }

    pub fn new(offset: u64, entries: u64, entry_size: usize) -> (t: Table)
        ensures
            t == (Table { offset, entries, entry_size }),
    {
        Table { offset, entries, entry_size }
    }

    /// The raw bytes of entry `i` (None past the end of the table).
    pub fn get(&self, src: &Source, have: &Loaded, i: u64) -> (r: Result<Option<Vec<u8>>, Stop>)
        requires
            self.wf(),
            src@.wf(),
        ensures
            match r {
                Ok(None) => i >= self.entries,
                Ok(Some(v)) => {
                    &&& v@.len() == self.entry_size
                    &&& forall|file: Seq<u8>| #[trigger]
                        have.shows(src@, file) ==> self.entry(src@, file, i) == Ok::<
                            Option<Seq<u8>>,
                            Fault,
                        >(Some(v@))
                },
                Err(Stop::Failed(e)) => forall|file: Seq<u8>| #[trigger] self.entry(src@, file, i) == Err::<
                    Option<Seq<u8>>,
                    Fault,
                >(e@),
                Err(Stop::Need { offset, len }) => have.lacks(src@, offset, len),
            },
    {
        if i >= self.entries {
            return Ok(None);
        }
        let per_window: u64 = (WINDOW / self.entry_size) as u64;
        proof {
            assert(per_window >= 1) by (nonlinear_arith)
                requires
                    per_window == WINDOW as int / self.entry_size as int,
                    0 < self.entry_size <= WINDOW,
            ;
            assert(per_window * self.entry_size <= WINDOW) by (nonlinear_arith)
                requires
                    per_window == WINDOW as int / self.entry_size as int,
                    0 < self.entry_size <= WINDOW,
            ;
        }
        proof {
            assert(0 <= i as int % per_window as int <= i) by (nonlinear_arith)
                requires
                    per_window >= 1,
                    i >= 0,
            ;
        }
        let first: u64 = i - i % per_window;
        let count: u64 = if per_window <= self.entries - first {
            per_window
        } else {
            self.entries - first
        };
        let ghost w = self.span(i);
        proof {
            assert(0 < count * self.entry_size <= WINDOW) by (nonlinear_arith)
                requires
                    0 < count <= per_window,
                    per_window * self.entry_size <= WINDOW,
                    self.entry_size > 0,
            ;
            assert(0 <= i - first < count);
            assert(w.at + self.entry_size <= w.start + w.len && w.start <= w.at) by (nonlinear_arith)
                requires
                    0 <= i - first < count,
                    w.start == self.offset + first * self.entry_size,
                    w.len == count * self.entry_size,
                    w.at == self.offset + i * self.entry_size,
                    self.entry_size > 0,
            ;
        }
        let start: u64 = match first.checked_mul(self.entry_size as u64) {
            Some(m) => match self.offset.checked_add(m) {
                Some(start) => start,
                None => {
                    return Err(Stop::Failed(bad("an offset is out of range")));
                },
            },
            None => {
                return Err(Stop::Failed(bad("an offset is out of range")));
            },
        };
        let len: usize = count as usize * self.entry_size;
        let n: usize = match src.in_file(start, len) {
            Ok(n) => n,
            Err(e) => {
                return Err(Stop::Failed(e));
            },
        };
        let in_window: u64 = i - first;
        proof {
            assert(in_window * self.entry_size <= count * self.entry_size) by (nonlinear_arith)
                requires
                    in_window < count,
            ;
            assert(first * self.entry_size + in_window * self.entry_size == i * self.entry_size) by (nonlinear_arith)
                requires
                    first + in_window == i,
            ;
        }
        let at: u64 = start + in_window * self.entry_size as u64;
        assert(at == w.at);
        match src.read_vec(have, at, self.entry_size) {
            Ok(v) => Ok(Some(v)),
            Err(Stop::Failed(e)) => {
                assert(false);
                Err(Stop::Failed(e))
            },
            Err(Stop::Need { offset, len: l }) => {
                // The whole window, when none of it has been read.
                if have.get(start, n).is_none() {
                    Err(Stop::Need { offset: start, len: n })
                } else {
                    Err(Stop::Need { offset, len: l })
                }
            },
        }
    }
}

/// An entry of a table is what is seen at its place.
pub proof fn law_entries_are_at_their_places(t: Table, src: Layers, file: Seq<u8>, i: u64)
    requires
        t.entry_size == 4 || t.entry_size == 8,
    ensures
        i < t.entries && t.entry(src, file, i) is Ok ==> {
            &&& t.offset + t.entry_size * i + t.entry_size <= src.end
            &&& t.entry(src, file, i) == Ok::<Option<Seq<u8>>, Fault>(
                Some(src.bytes(file, (t.offset + t.entry_size * i) as u64, t.entry_size as nat)),
            )
        },
        i >= t.entries ==> t.entry(src, file, i) == Ok::<Option<Seq<u8>>, Fault>(None),
{
    if i < t.entries && t.entry(src, file, i) is Ok {
        let w = t.span(i);
        assert(t.entry_size == 4 ==> w.at == t.offset + 4 * i && w.start + w.len >= w.at + 4);
        assert(t.entry_size == 8 ==> w.at == t.offset + 8 * i && w.start + w.len >= w.at + 8);
    }
}

/// Where a byte lies in its block.
pub proof fn lemma_in_block(k: int, size: int, j: int)
    requires
        size > 0,
        0 <= j < size,
    ensures
        (k * size + j) / size == k,
        (k * size + j) % size == j,
{
    vstd::arithmetic::div_mod::lemma_fundamental_div_mod_converse(k * size + j, size, k, j);
}

} // verus!
