//! Smart copies: only the extents the analysis found, onto a drive or into a smart image;
//! and what writing zeros comes to.

use vstd::prelude::*;
use vstd::slice::*;
use vstd::string::*;
use std::collections::BTreeMap;
use crate::engine::image::{
    announced, compress, compressor, compressor_set, countable, for_used_data, head_text, is_frame, law_map_round_trip,
    law_seek_table_round_trip, law_zero_pieces, lemma_head, lemma_seek_table_len, listed, map_frame, map_frame_of,
    map_text, parsed, place_of, seek_table, seek_table_of, sum, zero_pieces, zeros, zstd_content, Frame, Parts,
    SpaceMap, Zeros, DATA_MAX, MAGIC_V2, MAP_MAX, MAX_FRAMES, ZEROS_MAX,
};
use crate::engine::progress::Progress;
use crate::engine::{plain_words, why};
use crate::error::Fault;
use crate::fmt;
use crate::fmt::bytes_of;
use crate::smart::{any_holds, end_of, none_empty, total, Extent};

verus! {

/// Frames of a smart image hold up to this much used data.
pub const IMAGE_CHUNK: usize = DATA_MAX;

// ---- Pieces of extents --------------------------------------------------------------------

/// What lies from `start` to `end`, in pieces of at most `chunk` bytes: (offset, length).
pub open spec fn cut_up(start: int, end: int, chunk: int) -> Seq<(u64, usize)>
    decreases end - start,
{
    if start >= end || chunk <= 0 {
        Seq::empty()
    } else if end - start <= chunk {
        seq![(start as u64, (end - start) as usize)]
    } else {
        seq![(start as u64, chunk as usize)] + cut_up(start + chunk, end, chunk)
    }
}

/// `extents` in pieces of at most `chunk` bytes.
pub open spec fn pieces_of(extents: Seq<Extent>, chunk: int) -> Seq<(u64, usize)>
    decreases extents.len(),
{
    if extents.len() == 0 {
        Seq::empty()
    } else {
        pieces_of(extents.drop_last(), chunk) + cut_up(extents.last().start as int, extents.last().end(), chunk)
    }
}

fn push_cut(v: &mut Vec<(u64, usize)>, e: Extent, chunk: usize)
    requires
        chunk > 0,
        e.end() <= u64::MAX,
    ensures
        final(v)@ == old(v)@ + cut_up(e.start as int, e.end(), chunk as int),
{
    let end: u64 = e.start + e.len;
    let mut off: u64 = e.start;
    let ghost all = cut_up(e.start as int, e.end(), chunk as int);
    while off < end
        invariant
            chunk > 0,
            off <= end == e.end(),
            all == cut_up(e.start as int, e.end(), chunk as int),
            old(v)@ + all == v@ + cut_up(off as int, end as int, chunk as int),
        decreases end - off,
    {
        let left: u64 = end - off;
        let n: usize = if left <= chunk as u64 {
            left as usize
        } else {
            chunk
        };
        let ghost before = v@;
        v.push((off, n));
        proof {
            let rest = cut_up(off + n, end as int, chunk as int);
            assert(cut_up(off as int, end as int, chunk as int) == seq![(off, n)] + rest);
            assert(before + (seq![(off, n)] + rest) == v@ + rest);
        }
        off = off + n as u64;
    }
    proof { assert(v@ + Seq::<(u64, usize)>::empty() == v@); }
}

/// `extents` in pieces of at most `chunk` bytes: (offset, length).
pub fn pieces(extents: &[Extent], chunk: usize) -> (v: Vec<(u64, usize)>)
    requires
        chunk > 0,
        forall|i: int| 0 <= i < extents@.len() ==> (#[trigger] extents@[i]).end() <= u64::MAX,
    ensures
        v@ == pieces_of(extents@, chunk as int),
{
    let mut v: Vec<(u64, usize)> = Vec::new();
    let mut i: usize = 0;
    while i < extents.len()
        invariant
            chunk > 0,
            i <= extents.len(),
            forall|i: int| 0 <= i < extents@.len() ==> (#[trigger] extents@[i]).end() <= u64::MAX,
            v@ == pieces_of(extents@.take(i as int), chunk as int),
        decreases extents.len() - i,
    {
        push_cut(&mut v, extents[i], chunk);
        proof { assert(extents@.take(i + 1).drop_last() == extents@.take(i as int)); }
        i = i + 1;
    }
    proof { assert(extents@.take(extents@.len() as int) == extents@); }
    v
}

/// The bytes in some pieces.
pub open spec fn piece_total(v: Seq<(u64, usize)>) -> nat
    decreases v.len(),
{
    if v.len() == 0 {
        0
    } else {
        piece_total(v.drop_last()) + v.last().1 as nat
    }
}

proof fn lemma_piece_total_concat(a: Seq<(u64, usize)>, b: Seq<(u64, usize)>)
    ensures
        piece_total(a + b) == piece_total(a) + piece_total(b),
    decreases b.len(),
{
    if b.len() == 0 {
        assert(a + b == a);
    } else {
        assert((a + b).drop_last() == a + b.drop_last());
        lemma_piece_total_concat(a, b.drop_last());
    }
}

proof fn lemma_cut_up(start: int, end: int, chunk: int)
    requires
        0 <= start <= end <= u64::MAX,
        0 < chunk <= usize::MAX,
    ensures
        piece_total(cut_up(start, end, chunk)) == end - start,
        forall|i: int|
            0 <= i < cut_up(start, end, chunk).len() ==> {
                let p = #[trigger] cut_up(start, end, chunk)[i];
                0 < p.1 <= chunk && start <= p.0 && p.0 + p.1 <= end
            },
    decreases end - start,
{
    let v = cut_up(start, end, chunk);
    assert(piece_total(Seq::<(u64, usize)>::empty()) == 0);
    if start < end {
        if end - start <= chunk {
            assert(v.drop_last() == Seq::<(u64, usize)>::empty());
        } else {
            lemma_cut_up(start + chunk, end, chunk);
            let one = seq![(start as u64, chunk as usize)];
            let rest = cut_up(start + chunk, end, chunk);
            lemma_piece_total_concat(one, rest);
            assert(one.drop_last() == Seq::<(u64, usize)>::empty());
            assert forall|i: int| 0 <= i < v.len() implies {
                let p = #[trigger] v[i];
                0 < p.1 <= chunk && start <= p.0 && p.0 + p.1 <= end
            } by {
                if i > 0 {
                    assert(v[i] == rest[i - 1]);
                }
            }
        }
    }
}

/// The pieces of some extents hold what the extents hold: as many bytes, none of them empty
/// or over the limit, each inside one of the extents.
pub proof fn law_pieces(extents: Seq<Extent>, chunk: int)
    requires
        0 < chunk <= usize::MAX,
        forall|i: int| 0 <= i < extents.len() ==> (#[trigger] extents[i]).end() <= u64::MAX,
    ensures
        piece_total(pieces_of(extents, chunk)) == total(extents),
        forall|i: int|
            0 <= i < pieces_of(extents, chunk).len() ==> {
                let p = #[trigger] pieces_of(extents, chunk)[i];
                &&& 0 < p.1 <= chunk
                &&& exists|k: int|
                    0 <= k < extents.len() && (#[trigger] extents[k]).start <= p.0 && p.0 + p.1 <= extents[k].end()
            },
    decreases extents.len(),
{
    if extents.len() > 0 {
        let rest = extents.drop_last();
        let e = extents.last();
        law_pieces(rest, chunk);
        lemma_cut_up(e.start as int, e.end(), chunk);
        let (a, b) = (pieces_of(rest, chunk), cut_up(e.start as int, e.end(), chunk));
        lemma_piece_total_concat(a, b);
        let v = pieces_of(extents, chunk);
        assert forall|i: int| 0 <= i < v.len() implies {
            let p = #[trigger] v[i];
            &&& 0 < p.1 <= chunk
            &&& exists|k: int|
                0 <= k < extents.len() && (#[trigger] extents[k]).start <= p.0 && p.0 + p.1 <= extents[k].end()
        } by {
            if i < a.len() {
                assert(v[i] == a[i]);
                let p = a[i];
                let k = choose|k: int|
                    0 <= k < rest.len() && (#[trigger] rest[k]).start <= p.0 && p.0 + p.1 <= rest[k].end();
                assert(extents[k] == rest[k]);
            } else {
                assert(v[i] == b[i - a.len()]);
                assert(extents[extents.len() - 1].start <= v[i].0);
            }
        }
    }
}

/// Does one of these pieces hold `pos`?
pub open spec fn piece_holds(v: Seq<(u64, usize)>, pos: int) -> bool {
    exists|i: int| 0 <= i < v.len() && (#[trigger] v[i]).0 <= pos < v[i].0 + v[i].1
}

proof fn lemma_holds_concat(a: Seq<(u64, usize)>, b: Seq<(u64, usize)>, pos: int)
    ensures
        piece_holds(a + b, pos) == (piece_holds(a, pos) || piece_holds(b, pos)),
{
    let v = a + b;
    if piece_holds(v, pos) {
        let i = choose|i: int| 0 <= i < v.len() && (#[trigger] v[i]).0 <= pos < v[i].0 + v[i].1;
        if i < a.len() {
            assert(a[i] == v[i]);
        } else {
            assert(b[i - a.len()] == v[i]);
        }
    }
    if piece_holds(a, pos) {
        let i = choose|i: int| 0 <= i < a.len() && (#[trigger] a[i]).0 <= pos < a[i].0 + a[i].1;
        assert(v[i] == a[i]);
    }
    if piece_holds(b, pos) {
        let i = choose|i: int| 0 <= i < b.len() && (#[trigger] b[i]).0 <= pos < b[i].0 + b[i].1;
        assert(v[a.len() + i] == b[i]);
    }
}

proof fn lemma_cut_holds(start: int, end: int, chunk: int, pos: int)
    requires
        0 <= start <= end <= u64::MAX,
        0 < chunk <= usize::MAX,
    ensures
        piece_holds(cut_up(start, end, chunk), pos) == (start <= pos < end),
    decreases end - start,
{
    let v = cut_up(start, end, chunk);
    if start < end {
        if end - start <= chunk {
            assert(v[0] == (start as u64, (end - start) as usize));
            if start <= pos < end {
                assert(v[0].0 <= pos < v[0].0 + v[0].1);
            }
        } else {
            let one = seq![(start as u64, chunk as usize)];
            let rest = cut_up(start + chunk, end, chunk);
            lemma_cut_holds(start + chunk, end, chunk, pos);
            lemma_holds_concat(one, rest, pos);
            assert(one[0] == (start as u64, chunk as usize));
            if start <= pos < start + chunk {
                assert(one[0].0 <= pos < one[0].0 + one[0].1);
            }
        }
    }
}

/// Pieces hold the bytes that their extents hold, and no others.
pub proof fn law_pieces_hold_the_same(extents: Seq<Extent>, chunk: int, pos: int)
    requires
        0 < chunk <= usize::MAX,
        forall|i: int| 0 <= i < extents.len() ==> (#[trigger] extents[i]).end() <= u64::MAX,
    ensures
        piece_holds(pieces_of(extents, chunk), pos) == any_holds(extents, pos),
    decreases extents.len(),
{
    if extents.len() > 0 {
        let rest = extents.drop_last();
        let e = extents.last();
        law_pieces_hold_the_same(rest, chunk, pos);
        lemma_cut_holds(e.start as int, e.end(), chunk, pos);
        lemma_holds_concat(pieces_of(rest, chunk), cut_up(e.start as int, e.end(), chunk), pos);
        if any_holds(extents, pos) {
            let i = choose|i: int| 0 <= i < extents.len() && (#[trigger] extents[i]).holds(pos);
            if i < rest.len() {
                assert(rest[i] == extents[i]);
            }
        }
        if any_holds(rest, pos) {
            let i = choose|i: int| 0 <= i < rest.len() && (#[trigger] rest[i]).holds(pos);
            assert(extents[i] == rest[i]);
        }
        if e.holds(pos) {
            assert(extents[extents.len() - 1].holds(pos));
        }
    }
}

// ---- Writing to a drive -------------------------------------------------------------------

/// How many buffers of `chunk` bytes go round between a reader and a writer: 64 MiB of
/// them, but at least two and at most eight.
pub fn buffers(chunk: usize) -> (n: usize)
    requires
        chunk > 0,
    ensures
        n == {
            let m = 0x400_0000int / chunk as int;
            if m < 2 {
                2
            } else if m > 8 {
                8
            } else {
                m
            }
        },
{
    let m: usize = 0x400_0000 / chunk;
    if m < 2 {
        2
    } else if m > 8 {
        8
    } else {
        m
    }
}

/// May `len` bytes go to `off` on a target of `size` bytes? Only a drive has an end.
pub fn fits(is_drive: bool, size: u64, off: u64, len: usize) -> (r: bool)
    ensures
        r == (!is_drive || off + len <= size),
{
    if !is_drive {
        return true;
    }
    match off.checked_add(len as u64) {
        Some(end) => end <= size,
        None => false,
    }
}

/// What went wrong where, in words.
pub open spec fn io_error_of(what: Seq<char>, path: Seq<char>, off: u64, error: Seq<char>) -> Seq<char> {
    what + path + " at "@ + bytes_of(off) + ": "@ + plain_words(error)
}

/// An error while reading `path` at `off`.
pub fn read_error(path: &str, off: u64, error: &str) -> (s: String)
    ensures
        s@ == io_error_of("couldn't read "@, path@, off, error@),
{
    let mut s: String = "couldn't read ".to_owned();
    s.append(path);
    s.append(" at ");
    s.append(fmt::bytes(off).as_str());
    s.append(": ");
    s.append(why(error).as_str());
    s
}

/// An error while writing to `path` at `off`.
pub fn write_error(path: &str, off: u64, error: &str) -> (s: String)
    ensures
        s@ == io_error_of("couldn't write to "@, path@, off, error@),
{
    let mut s: String = "couldn't write to ".to_owned();
    s.append(path);
    s.append(" at ");
    s.append(fmt::bytes(off).as_str());
    s.append(": ");
    s.append(why(error).as_str());
    s
}

pub open spec fn too_much_of(path: Seq<char>, size: u64) -> Seq<char> {
    "The image doesn't fit on "@ + path + ": it holds more than the drive's "@ + bytes_of(size) + "."@
}

/// What a writer says when a drive ends before what it has to hold.
pub fn too_much(path: &str, size: u64) -> (s: String)
    ensures
        s@ == too_much_of(path@, size),
{
    let mut s: String = "The image doesn't fit on ".to_owned();
    s.append(path);
    s.append(": it holds more than the drive's ");
    s.append(fmt::bytes(size).as_str());
    s.append(".");
    s
}

/// How many of the pieces from `from` on go to a drive of `size` bytes, before one doesn't
/// fit: its end.
pub open spec fn fitting(v: Seq<(u64, usize)>, size: int, from: int) -> int
    decreases v.len() - from,
{
    if from < v.len() && v[from].0 + v[from].1 <= size {
        fitting(v, size, from + 1)
    } else {
        from
    }
}

/// A count after `n` more. (Past the biggest number, counts start over.)
#[verifier::opaque]
pub open spec fn counted(before: u64, n: nat) -> u64 {
    ((before + n) % 0x1_0000_0000_0000_0000) as u64
}

pub(crate) proof fn lemma_counted(before: u64, a: nat, b: nat)
    ensures
        counted(before, 0) == before,
        counted(counted(before, a), b) == counted(before, a + b),
{
    reveal(counted);
}

pub(crate) fn count(progress: &mut Progress, done: u64, written: u64)
    ensures
        final(progress).done == counted(old(progress).done, done as nat),
        final(progress).written == counted(old(progress).written, written as nat),
{
    reveal(counted);
    progress.add(done, written);
}

/// Copies the extents from `src` to the same offsets on the drive `dst`, which is at `path`,
/// piece by piece, and counts the bytes. What they don't hold is left alone. A piece that
/// doesn't fit ends it: nothing of that one or of a later one is written.
pub fn to_drive(
    src: &[u8],
    dst: &mut Vec<u8>,
    extents: &[Extent],
    chunk: usize,
    path: &str,
    progress: &mut Progress,
) -> (r: Result<(), String>)
    requires
        chunk > 0,
        forall|i: int| 0 <= i < extents@.len() ==> (#[trigger] extents@[i]).end() <= src@.len(),
    ensures
        ({
            let v = pieces_of(extents@, chunk as int);
            let n = fitting(v, old(dst)@.len() as int, 0);
            &&& 0 <= n <= v.len()
            &&& final(dst)@.len() == old(dst)@.len()
            &&& forall|i: int|
                0 <= i < old(dst)@.len() ==> #[trigger] final(dst)@[i] == (if piece_holds(v.take(n), i) {
                    src@[i]
                } else {
                    old(dst)@[i]
                })
            &&& final(progress).done == counted(old(progress).done, piece_total(v.take(n)))
            &&& final(progress).written == counted(old(progress).written, piece_total(v.take(n)))
            &&& match r {
                Ok(_) => n == v.len(),
                Err(e) => n < v.len() && e@ == too_much_of(path@, old(dst)@.len() as u64),
            }
        }),
{
    let ghost before = dst@;
    let ghost was_done = progress.done;
    let ghost was_written = progress.written;
    let size: usize = dst.len();
    let source: usize = src.len();
    proof {
        assert forall|i: int| 0 <= i < extents@.len() implies (#[trigger] extents@[i]).end() <= u64::MAX by {
            assert(extents@[i].end() <= source);
        }
    }
    let v: Vec<(u64, usize)> = pieces(extents, chunk);
    proof {
        law_pieces(extents@, chunk as int);
        assert(v@.take(0) =~= Seq::<(u64, usize)>::empty());
        lemma_counted(was_done, 0, 0);
        lemma_counted(was_written, 0, 0);
    }
    let mut k: usize = 0;
    while k < v.len()
        invariant
            k <= v@.len(),
            size == before.len(),
            before == old(dst)@,
            was_done == old(progress).done,
            was_written == old(progress).written,
            dst@.len() == size,
            source == src@.len(),
            forall|i: int| 0 <= i < extents@.len() ==> (#[trigger] extents@[i]).end() <= source,
            v@ == pieces_of(extents@, chunk as int),
            0 < chunk,
            fitting(v@, size as int, 0) == fitting(v@, size as int, k as int),
            forall|i: int|
                0 <= i < v@.len() ==> {
                    let p = #[trigger] v@[i];
                    &&& 0 < p.1 <= chunk
                    &&& exists|k: int|
                        0 <= k < extents@.len() && (#[trigger] extents@[k]).start <= p.0 && p.0 + p.1
                            <= extents@[k].end()
                },
            forall|i: int|
                0 <= i < size ==> #[trigger] dst@[i] == (if piece_holds(v@.take(k as int), i) {
                    src@[i]
                } else {
                    before[i]
                }),
            progress.done == counted(was_done, piece_total(v@.take(k as int))),
            progress.written == counted(was_written, piece_total(v@.take(k as int))),
        decreases v@.len() - k,
    {
        let (off, len) = v[k];
        let ghost e = choose|e: int|
            0 <= e < extents@.len() && (#[trigger] extents@[e]).start <= off && off + len <= extents@[e].end();
        proof {
            assert(v@[k as int] == (off, len));
            assert(extents@[e].end() <= source);
        }
        if !fits(true, size as u64, off, len) {
            return Err(too_much(path, size as u64));
        }
        proof {
            assert(v@.take(k + 1) =~= v@.take(k as int) + seq![(off, len)]);
            assert(v@.take(k + 1).drop_last() =~= v@.take(k as int));
            assert forall|i: int| piece_holds(v@.take(k + 1), i) == (piece_holds(v@.take(k as int), i) || off <= i < off
                + len) by {
                let one = seq![(off, len)];
                lemma_holds_concat(v@.take(k as int), one, i);
                assert(one[0] == (off, len));
                if off <= i < off + len {
                    assert(one[0].0 <= i < one[0].0 + one[0].1);
                }
            }
        }
        let at: usize = off as usize;
        let mut n: usize = 0;
        let ghost was = dst@;
        while n < len
            invariant
                n <= len,
                at + len <= size,
                at + len <= source,
                source == src@.len(),
                dst@.len() == size,
                was.len() == size,
                forall|i: int|
                    0 <= i < size ==> #[trigger] dst@[i] == (if at <= i < at + n {
                        src@[i]
                    } else {
                        was[i]
                    }),
            decreases len - n,
        {
            dst.set(at + n, src[at + n]);
            n = n + 1;
        }
        count(progress, len as u64, len as u64);
        proof {
            lemma_counted(was_done, piece_total(v@.take(k as int)), len as nat);
            lemma_counted(was_written, piece_total(v@.take(k as int)), len as nat);
            assert forall|i: int| 0 <= i < size implies #[trigger] dst@[i] == (if piece_holds(v@.take(k + 1), i) {
                src@[i]
            } else {
                before[i]
            }) by {
                assert(was[i] == (if piece_holds(v@.take(k as int), i) {
                    src@[i]
                } else {
                    before[i]
                }));
            }
        }
        k = k + 1;
    }
    Ok(())
}

proof fn lemma_fitting(v: Seq<(u64, usize)>, size: int, from: int)
    requires
        0 <= from <= v.len(),
    ensures
        from <= fitting(v, size, from) <= v.len(),
        forall|i: int| from <= i < fitting(v, size, from) ==> (#[trigger] v[i]).0 + v[i].1 <= size,
        fitting(v, size, from) < v.len() ==> v[fitting(v, size, from)].0 + v[fitting(v, size, from)].1 > size,
    decreases v.len() - from,
{
    if from < v.len() && v[from].0 + v[from].1 <= size {
        lemma_fitting(v, size, from + 1);
    }
}

/// What a copy of some extents to a drive of `size` bytes comes to. Where all of them end on
/// the drive (those that hold something), all pieces go there: what the extents hold, and
/// as many bytes. In any case nothing else does.
pub proof fn law_copy_to_drive(extents: Seq<Extent>, chunk: int, size: int)
    requires
        0 < chunk <= usize::MAX,
        forall|i: int| 0 <= i < extents.len() ==> (#[trigger] extents[i]).end() <= u64::MAX,
    ensures
        ({
            let v = pieces_of(extents, chunk);
            let n = fitting(v, size, 0);
            &&& 0 <= n <= v.len()
            &&& n == v.len() <==> forall|k: int|
                0 <= k < extents.len() && (#[trigger] extents[k]).len > 0 ==> extents[k].end() <= size
            &&& n == v.len() ==> piece_total(v.take(n)) == total(extents)
            &&& n == v.len() ==> forall|i: int| #[trigger] piece_holds(v.take(n), i) == any_holds(extents, i)
            &&& forall|i: int| #[trigger] piece_holds(v.take(n), i) ==> any_holds(extents, i)
        }),
{
    let v = pieces_of(extents, chunk);
    let n = fitting(v, size, 0);
    lemma_fitting(v, size, 0);
    law_pieces(extents, chunk);
    assert forall|i: int| #[trigger] piece_holds(v.take(n), i) implies any_holds(extents, i) by {
        lemma_part_holds(v, n, i);
        law_pieces_hold_the_same(extents, chunk, i);
    }
    if n == v.len() {
        assert(v.take(n) == v);
        assert forall|i: int| #[trigger] piece_holds(v.take(n), i) == any_holds(extents, i) by {
            law_pieces_hold_the_same(extents, chunk, i);
        }
        assert forall|k: int| 0 <= k < extents.len() && (#[trigger] extents[k]).len > 0 implies extents[k].end()
            <= size by {
            let pos = extents[k].end() - 1;
            assert(extents[k].holds(pos));
            law_pieces_hold_the_same(extents, chunk, pos);
            let i = choose|i: int| 0 <= i < v.len() && (#[trigger] v[i]).0 <= pos < v[i].0 + v[i].1;
            assert(v[i].0 + v[i].1 <= size);
        }
    } else {
        let p = v[n];
        let k = choose|k: int|
            0 <= k < extents.len() && (#[trigger] extents[k]).start <= p.0 && p.0 + p.1 <= extents[k].end();
        assert(extents[k].len > 0 && extents[k].end() > size);
    }
}

proof fn lemma_part_holds(v: Seq<(u64, usize)>, k: int, pos: int)
    requires
        0 <= k <= v.len(),
    ensures
        piece_holds(v.take(k), pos) ==> piece_holds(v, pos),
{
    if piece_holds(v.take(k), pos) {
        let t = v.take(k);
        let i = choose|i: int| 0 <= i < t.len() && (#[trigger] t[i]).0 <= pos < t[i].0 + t[i].1;
        assert(v[i] == t[i]);
    }
}

// ---- Smart images -------------------------------------------------------------------------

/// A part of a drive, as a smart image holds it.
#[derive(Clone, Copy, Debug, PartialEq, Eq, Structural)]
pub enum Part {
    /// Used data: `len` bytes at `off`.
    Data { off: u64, len: usize },
    /// Free space.
    Free(u64),
}

/// The data parts for some pieces.
pub open spec fn data_parts(v: Seq<(u64, usize)>) -> Seq<Part> {
    v.map_values(|p: (u64, usize)| Part::Data { off: p.0, len: p.1 })
}

/// The free space, if any, from `pos` to `start`.
pub open spec fn gap(pos: int, start: int) -> Seq<Part> {
    if start > pos {
        seq![Part::Free((start - pos) as u64)]
    } else {
        Seq::empty()
    }
}

/// The parts of a drive up to the end of its last extent.
pub open spec fn parts_upto(extents: Seq<Extent>) -> Seq<Part>
    decreases extents.len(),
{
    if extents.len() == 0 {
        Seq::empty()
    } else {
        let e = extents.last();
        parts_upto(extents.drop_last()) + gap(end_of(extents.drop_last()), e.start as int) + data_parts(
            cut_up(e.start as int, e.end(), IMAGE_CHUNK as int),
        )
    }
}

/// The parts of a drive from its start to its end: used data in pieces, free space between
/// them.
pub open spec fn parts_of(m: Parts) -> Seq<Part> {
    parts_upto(m.extents) + gap(end_of(m.extents), m.size as int)
}

/// The parts of a drive that a smart image holds, in order.
pub fn image_parts(map: &SpaceMap) -> (v: Vec<Part>)
    requires
        map@.wf(),
    ensures
        v@ == parts_of(map@),
{
    let mut v: Vec<Part> = Vec::new();
    let mut pos: u64 = 0;
    let mut i: usize = 0;
    while i < map.extents.len()
        invariant
            map@.wf(),
            i <= map.extents@.len(),
            pos == end_of(map.extents@.take(i as int)),
            v@ == parts_upto(map.extents@.take(i as int)),
        decreases map.extents@.len() - i,
    {
        let e: Extent = map.extents[i];
        proof {
            assert(map@.extents[i as int].end() <= map.size);
            assert(map.extents@.take(i + 1).drop_last() == map.extents@.take(i as int));
        }
        let ghost before = v@;
        if e.start > pos {
            v.push(Part::Free(e.start - pos));
        }
        let mut cut: Vec<(u64, usize)> = Vec::new();
        push_cut(&mut cut, e, IMAGE_CHUNK);
        let ghost mid = v@;
        proof {
            assert(mid == before + gap(pos as int, e.start as int));
            assert(cut@ == cut_up(e.start as int, e.end(), IMAGE_CHUNK as int));
            assert(data_parts(cut@).take(0) == Seq::<Part>::empty());
            assert(mid + Seq::<Part>::empty() == mid);
        }
        let mut k: usize = 0;
        while k < cut.len()
            invariant
                k <= cut@.len(),
                v@ == mid + data_parts(cut@).take(k as int),
            decreases cut@.len() - k,
        {
            let (off, len): (u64, usize) = cut[k];
            v.push(Part::Data { off, len });
            proof {
                assert(data_parts(cut@)[k as int] == (Part::Data { off, len }));
                assert(mid + data_parts(cut@).take(k + 1) == (mid + data_parts(cut@).take(k as int)).push(
                    Part::Data { off, len },
                ));
            }
            k = k + 1;
        }
        proof { assert(data_parts(cut@).take(cut@.len() as int) == data_parts(cut@)); }
        pos = e.start + e.len;
        i = i + 1;
    }
    proof {
        assert(map.extents@.take(map.extents@.len() as int) == map.extents@);
    }
    let ghost before = v@;
    if map.size > pos {
        v.push(Part::Free(map.size - pos));
    }
    proof { assert(v@ == before + gap(pos as int, map.size as int)); }
    v
}

/// What a part of `drive` unpacks to: its data, and zeros for free space.
pub open spec fn part_bytes(p: Part, drive: Seq<u8>) -> Seq<u8> {
    match p {
        Part::Data { off, len } => drive.subrange(off as int, off + len),
        Part::Free(n) => zeros(n as nat),
    }
}

/// What some parts unpack to, one after another.
pub open spec fn parts_bytes(v: Seq<Part>, drive: Seq<u8>) -> Seq<u8>
    decreases v.len(),
{
    if v.len() == 0 {
        Seq::empty()
    } else {
        parts_bytes(v.drop_last(), drive) + part_bytes(v.last(), drive)
    }
}

/// A drive with its free space as zeros.
pub open spec fn used_only(drive: Seq<u8>, extents: Seq<Extent>) -> Seq<u8> {
    Seq::new(
        drive.len(),
        |i: int|
            if any_holds(extents, i) {
                drive[i]
            } else {
                0u8
            },
    )
}

proof fn lemma_parts_bytes_concat(a: Seq<Part>, b: Seq<Part>, drive: Seq<u8>)
    ensures
        parts_bytes(a + b, drive) == parts_bytes(a, drive) + parts_bytes(b, drive),
    decreases b.len(),
{
    if b.len() == 0 {
        assert(a + b == a);
    } else {
        assert((a + b).drop_last() == a + b.drop_last());
        lemma_parts_bytes_concat(a, b.drop_last(), drive);
    }
}

proof fn lemma_cut_bytes(start: int, end: int, drive: Seq<u8>)
    requires
        0 <= start <= end <= drive.len() <= u64::MAX,
    ensures
        parts_bytes(data_parts(cut_up(start, end, IMAGE_CHUNK as int)), drive) == drive.subrange(start, end),
    decreases end - start,
{
    let chunk = IMAGE_CHUNK as int;
    let v = cut_up(start, end, chunk);
    let d = data_parts(v);
    assert(parts_bytes(Seq::<Part>::empty(), drive) == Seq::<u8>::empty());
    if start >= end {
        assert(d == Seq::<Part>::empty());
        assert(drive.subrange(start, end) == Seq::<u8>::empty());
    } else if end - start <= chunk {
        let p = Part::Data { off: start as u64, len: (end - start) as usize };
        assert(d == seq![p]);
        assert(d.drop_last() == Seq::<Part>::empty());
        assert(parts_bytes(d, drive) == Seq::<u8>::empty() + drive.subrange(start, end));
    } else {
        lemma_cut_bytes(start + chunk, end, drive);
        let p = Part::Data { off: start as u64, len: chunk as usize };
        let rest = data_parts(cut_up(start + chunk, end, chunk));
        assert(d == seq![p] + rest);
        lemma_parts_bytes_concat(seq![p], rest, drive);
        assert(seq![p].drop_last() == Seq::<Part>::empty());
        assert(parts_bytes(seq![p], drive) == drive.subrange(start, start + chunk));
        assert(drive.subrange(start, start + chunk) + drive.subrange(start + chunk, end) == drive.subrange(start, end));
    }
}

proof fn lemma_gap_bytes(pos: int, start: int, drive: Seq<u8>)
    requires
        0 <= pos <= start <= u64::MAX,
    ensures
        parts_bytes(gap(pos, start), drive) == zeros((start - pos) as nat),
{
    let g = gap(pos, start);
    assert(parts_bytes(Seq::<Part>::empty(), drive) == Seq::<u8>::empty());
    if start > pos {
        assert(g.drop_last() == Seq::<Part>::empty());
        assert(parts_bytes(g, drive) == Seq::<u8>::empty() + zeros((start - pos) as nat));
    } else {
        assert(zeros(0) == Seq::<u8>::empty());
    }
}

proof fn lemma_parts_upto(m: Parts, k: int, drive: Seq<u8>)
    requires
        m.wf(),
        drive.len() == m.size,
        0 <= k <= m.extents.len(),
    ensures
        0 <= end_of(m.extents.take(k)) <= m.size,
        parts_bytes(parts_upto(m.extents.take(k)), drive) == used_only(drive, m.extents).take(end_of(m.extents.take(k))),
    decreases k,
{
    let ex = m.extents;
    let out = used_only(drive, ex);
    if k == 0 {
        assert(ex.take(0) == Seq::<Extent>::empty());
        assert(out.take(0) == Seq::<u8>::empty());
    } else {
        lemma_parts_upto(m, k - 1, drive);
        let e = ex[k - 1];
        assert(e.end() <= m.size);
        let before = ex.take(k - 1);
        let pos = end_of(before);
        assert(ex.take(k).drop_last() == before);
        assert(ex.take(k).last() == e);
        if k >= 2 {
            assert(before.last() == ex[k - 2]);
            assert(ex[k - 2].end() <= ex[k - 1].start);
        }
        let g = gap(pos, e.start as int);
        let d = data_parts(cut_up(e.start as int, e.end(), IMAGE_CHUNK as int));
        lemma_parts_bytes_concat(parts_upto(before) + g, d, drive);
        lemma_parts_bytes_concat(parts_upto(before), g, drive);
        lemma_gap_bytes(pos, e.start as int, drive);
        lemma_cut_bytes(e.start as int, e.end(), drive);
        assert forall|i: int| pos <= i < e.start implies !any_holds(ex, i) by {
            if any_holds(ex, i) {
                let j = choose|j: int| 0 <= j < ex.len() && (#[trigger] ex[j]).holds(i);
                if j < k - 1 {
                    if j < k - 2 {
                        assert(ex[j].end() <= ex[k - 2].start);
                    }
                } else if j > k - 1 {
                    assert(ex[k - 1].end() <= ex[j].start);
                }
                assert(false);
            }
        }
        assert forall|i: int| e.start <= i < e.end() implies any_holds(ex, i) by {
            assert(ex[k - 1].holds(i));
        }
        assert(out.take(e.end()) == out.take(pos) + zeros((e.start - pos) as nat) + drive.subrange(
            e.start as int,
            e.end(),
        ));
    }
}

/// The parts of a drive unpack to the drive: the used data in place, zeros for free space,
/// exactly the drive's size.
pub proof fn law_parts_are_the_drive(m: Parts, drive: Seq<u8>)
    requires
        m.wf(),
        drive.len() == m.size,
    ensures
        parts_bytes(parts_of(m), drive) == used_only(drive, m.extents),
{
    let ex = m.extents;
    let out = used_only(drive, ex);
    lemma_parts_upto(m, ex.len() as int, drive);
    assert(ex.take(ex.len() as int) == ex);
    let end = end_of(ex);
    lemma_parts_bytes_concat(parts_upto(ex), gap(end, m.size as int), drive);
    lemma_gap_bytes(end, m.size as int, drive);
    assert forall|i: int| end <= i < m.size implies !any_holds(ex, i) by {
        if any_holds(ex, i) {
            let j = choose|j: int| 0 <= j < ex.len() && (#[trigger] ex[j]).holds(i);
            if j < ex.len() - 1 {
                assert(ex[j].end() <= ex[ex.len() - 1].start);
            }
            assert(false);
        }
    }
    assert(out == out.take(end) + zeros((m.size - end) as nat));
}

// ---- Putting an image together ------------------------------------------------------------

/// What the frames of `len` bytes of free space hold, each.
pub open spec fn zero_contents(len: nat) -> Seq<Seq<u8>> {
    zero_pieces(len).map_values(|n: u64| zeros(n as nat))
}

/// What the frames of a part of `drive` hold, each: used data in one, free space as zeros in
/// some.
pub open spec fn part_contents(p: Part, drive: Seq<u8>) -> Seq<Seq<u8>> {
    match p {
        Part::Data { off, len } => seq![drive.subrange(off as int, off + len)],
        Part::Free(n) => zero_contents(n as nat),
    }
}

/// What the frames of some parts hold, each.
pub open spec fn parts_contents(v: Seq<Part>, drive: Seq<u8>) -> Seq<Seq<u8>>
    decreases v.len(),
{
    if v.len() == 0 {
        Seq::empty()
    } else {
        parts_contents(v.drop_last(), drive) + part_contents(v.last(), drive)
    }
}

/// Contents one after another.
pub open spec fn joined(c: Seq<Seq<u8>>) -> Seq<u8>
    decreases c.len(),
{
    if c.len() == 0 {
        Seq::empty()
    } else {
        joined(c.drop_last()) + c.last()
    }
}

proof fn lemma_joined_concat(a: Seq<Seq<u8>>, b: Seq<Seq<u8>>)
    ensures
        joined(a + b) == joined(a) + joined(b),
    decreases b.len(),
{
    if b.len() == 0 {
        assert(a + b == a);
        assert(joined(a) + joined(b) == joined(a));
    } else {
        assert((a + b).drop_last() == a + b.drop_last());
        lemma_joined_concat(a, b.drop_last());
        let (x, y, z) = (joined(a), joined(b.drop_last()), b.last());
        assert(x + y + z == x + (y + z));
    }
}

proof fn lemma_joined_one(c: Seq<u8>)
    ensures
        joined(seq![c]) == c,
{
    assert(seq![c].drop_last() == Seq::<Seq<u8>>::empty());
    assert(joined(Seq::<Seq<u8>>::empty()) == Seq::<u8>::empty());
    assert(Seq::<u8>::empty() + c == c);
}

proof fn lemma_zero_contents(v: Seq<u64>)
    ensures
        joined(v.map_values(|n: u64| zeros(n as nat))) == zeros(sum(v)),
    decreases v.len(),
{
    let c = v.map_values(|n: u64| zeros(n as nat));
    if v.len() == 0 {
        assert(zeros(0) == Seq::<u8>::empty());
    } else {
        let one = seq![zeros(v[0] as nat)];
        let rest = v.skip(1).map_values(|n: u64| zeros(n as nat));
        assert(c == one + rest);
        lemma_joined_concat(one, rest);
        lemma_zero_contents(v.skip(1));
        lemma_joined_one(zeros(v[0] as nat));
        assert(zeros(v[0] as nat) + zeros(sum(v.skip(1))) == zeros(sum(v)));
    }
}

/// The frames of some parts hold what the parts hold.
proof fn lemma_parts_contents(v: Seq<Part>, drive: Seq<u8>)
    ensures
        joined(parts_contents(v, drive)) == parts_bytes(v, drive),
    decreases v.len(),
{
    if v.len() > 0 {
        lemma_parts_contents(v.drop_last(), drive);
        let c = part_contents(v.last(), drive);
        lemma_joined_concat(parts_contents(v.drop_last(), drive), c);
        match v.last() {
            Part::Data { off, len } => {
                lemma_joined_one(drive.subrange(off as int, off + len));
            },
            Part::Free(n) => {
                law_zero_pieces(n as nat);
                lemma_zero_contents(zero_pieces(n as nat));
            },
        }
    }
}

/// A piece of a smart image, as it comes from a compressor (or needs none).
pub enum Piece {
    /// A frame of `len` bytes of used data.
    Data { frame: Vec<u8>, len: usize },
    /// Free space.
    Free(u64),
}

impl Piece {
    /// It is a frame of as many bytes as the piece says, which one frame may hold.
    pub open spec fn wf(&self) -> bool {
        self matches Piece::Data { frame, len } ==> {
            &&& len <= IMAGE_CHUNK
            &&& is_frame(frame@, zstd_content(frame@)->0)
            &&& (zstd_content(frame@)->0).len() == len
        }
    }

    /// What its frames hold, each: the data in one, free space as zeros in some.
    pub open spec fn contents(&self) -> Seq<Seq<u8>> {
        match self {
            Piece::Data { frame, .. } => seq![zstd_content(frame@)->0],
            Piece::Free(n) => zero_contents(*n as nat),
        }
    }
}

/// A frame that was written, and what it unpacks to.
pub ghost struct Done {
    pub frame: Seq<u8>,
    pub content: Seq<u8>,
}

/// The frames that were written, one after another.
pub open spec fn frames_of(done: Seq<Done>) -> Seq<u8>
    decreases done.len(),
{
    if done.len() == 0 {
        Seq::empty()
    } else {
        frames_of(done.drop_last()) + done.last().frame
    }
}

/// What each of them unpacks to.
pub open spec fn held(done: Seq<Done>) -> Seq<Seq<u8>> {
    done.map_values(|d: Done| d.content)
}

/// What they unpack to, one after another.
pub open spec fn contents_of(done: Seq<Done>) -> Seq<u8>
    decreases done.len(),
{
    if done.len() == 0 {
        Seq::empty()
    } else {
        contents_of(done.drop_last()) + done.last().content
    }
}

/// How the seek table lists a frame.
pub open spec fn listing(d: Done) -> Frame {
    Frame { packed: d.frame.len() as u32, len: d.content.len() as u32 }
}

/// The seek table's frames: the map's, then those that were written.
pub open spec fn table_for(first: nat, done: Seq<Done>) -> Seq<Frame> {
    seq![Frame { packed: first as u32, len: 0 }] + done.map_values(|d: Done| listing(d))
}

/// Every frame that was written is a frame of its content, and holds no more than a frame may.
pub open spec fn all_decode(done: Seq<Done>) -> bool {
    forall|i: int|
        0 <= i < done.len() ==> {
            &&& is_frame((#[trigger] done[i]).frame, done[i].content)
            &&& done[i].content.len() <= ZEROS_MAX
        }
}

/// What the frames of the pieces from `from` to `to` hold, each.
pub open spec fn run_contents(m: vstd::map::Map<u64, Piece>, from: int, to: int) -> Seq<Seq<u8>>
    decreases to - from,
{
    if from >= to {
        Seq::empty()
    } else {
        run_contents(m, from, to - 1) + m[(to - 1) as u64].contents()
    }
}

proof fn lemma_contents_joined(done: Seq<Done>)
    ensures
        contents_of(done) == joined(held(done)),
    decreases done.len(),
{
    if done.len() > 0 {
        lemma_contents_joined(done.drop_last());
        assert(held(done).drop_last() == held(done.drop_last()));
    }
}

/// The views of some frames.
pub open spec fn flat(v: Seq<Vec<u8>>) -> Seq<u8>
    decreases v.len(),
{
    if v.len() == 0 {
        Seq::empty()
    } else {
        flat(v.drop_last()) + v.last()@
    }
}

/// Holds a piece until its turn comes.
fn hold(m: &mut BTreeMap<u64, Piece>, k: u64, p: Piece)
    ensures
        final(m)@ == old(m)@.insert(k, p),
{
    broadcast use {vstd::std_specs::btree::group_btree_axioms, vstd::laws_cmp::group_laws_cmp};
    m.insert(k, p);
}

/// Lets go of the piece of a number, if it is there.
fn release(m: &mut BTreeMap<u64, Piece>, k: u64) -> (r: Option<Piece>)
    ensures
        final(m)@ == old(m)@.remove(k),
        match r {
            Some(p) => old(m)@.contains_key(k) && p == old(m)@[k],
            None => !old(m)@.contains_key(k),
        },
{
    broadcast use {vstd::std_specs::btree::group_btree_axioms, vstd::laws_cmp::group_laws_cmp};
    m.remove(&k)
}

/// Puts a smart image together: takes its pieces in any order, each under its number, and
/// gives out its frames in order.
pub struct ImageWriter {
    /// What the seek table will list.
    pub table: Vec<Frame>,
    pub zeros: Zeros,
    /// Pieces that came before their turn.
    pub pending: BTreeMap<u64, Piece>,
    /// The number of the piece whose turn it is.
    pub next: u64,
    /// Bytes in the map's frame.
    pub first: Ghost<nat>,
    /// The frames that were given out.
    pub done: Ghost<Seq<Done>>,
}

impl ImageWriter {
    pub open spec fn wf(&self) -> bool {
        &&& self.zeros.wf()
        &&& all_decode(self.done@)
        &&& self.table@ == table_for(self.first@, self.done@)
        &&& forall|k: u64|
            #![trigger self.pending@[k]]
            self.pending@.contains_key(k) ==> self.pending@[k].wf() && self.next < k < u64::MAX
    }

    /// A new image, whose map takes a frame of `first` bytes.
    pub fn new(first: usize) -> (w: ImageWriter)
        ensures
            w.wf(),
            w.next == 0,
            w.first@ == first,
            w.done@ == Seq::<Done>::empty(),
            w.pending@ == vstd::map::Map::<u64, Piece>::empty(),
    {
        let mut table: Vec<Frame> = Vec::new();
        table.push(Frame { packed: first as u32, len: 0 });
        let w: ImageWriter = ImageWriter {
            table,
            zeros: Zeros::new(),
            pending: BTreeMap::new(),
            next: 0,
            first: Ghost(first as nat),
            done: Ghost(Seq::empty()),
        };
        assert(w.table@ == table_for(first as nat, w.done@));
        w
    }

    fn give(&mut self, frame: Vec<u8>, len: u64, out: &mut Vec<Vec<u8>>)
        requires
            all_decode(old(self).done@),
            old(self).zeros.wf(),
            old(self).table@ == table_for(old(self).first@, old(self).done@),
            len <= ZEROS_MAX,
            is_frame(frame@, zstd_content(frame@)->0),
            (zstd_content(frame@)->0).len() == len,
        ensures
            final(self).zeros == old(self).zeros,
            final(self).pending == old(self).pending,
            final(self).next == old(self).next,
            final(self).first == old(self).first,
            all_decode(final(self).done@),
            final(self).done@ == old(self).done@.push(Done { frame: frame@, content: zstd_content(frame@)->0 }),
            final(self).table@ == table_for(final(self).first@, final(self).done@),
            flat(final(out)@) == flat(old(out)@) + frame@,
    {
        let ghost d = Done { frame: frame@, content: zstd_content(frame@)->0 };
        self.table.push(Frame { packed: frame.len() as u32, len: len as u32 });
        proof {
            assert(table_for(self.first@, self.done@.push(d)) == table_for(self.first@, self.done@).push(listing(d)));
        }
        self.done = Ghost(self.done@.push(d));
        out.push(frame);
        proof { assert(out@.drop_last() == old(out)@); }
    }

    fn give_zeros(&mut self, len: u64, out: &mut Vec<Vec<u8>>) -> (r: Result<(), String>)
        requires
            all_decode(old(self).done@),
            old(self).zeros.wf(),
            old(self).table@ == table_for(old(self).first@, old(self).done@),
            flat(old(out)@) == frames_of(old(self).done@).skip(frames_of(old(self).done@).len() - flat(old(out)@).len()),
        ensures
            final(self).zeros.wf(),
            final(self).pending == old(self).pending,
            final(self).next == old(self).next,
            final(self).first == old(self).first,
            all_decode(final(self).done@),
            final(self).table@ == table_for(final(self).first@, final(self).done@),
            r is Ok ==> {
                &&& held(final(self).done@) == held(old(self).done@) + zero_contents(len as nat)
                &&& exists|more: Seq<u8>|
                    #![trigger flat(old(out)@) + more]
                    flat(final(out)@) == flat(old(out)@) + more && frames_of(final(self).done@) == frames_of(
                        old(self).done@,
                    ) + more
            },
            r matches Err(e) ==> cant_compress(e@),
    {
        let v: Vec<u64> = Zeros::pieces(len);
        proof {
            law_zero_pieces(len as nat);
            assert(held(self.done@) + zero_contents(len as nat).take(0) == held(self.done@));
        }
        let ghost mut more: Seq<u8> = Seq::empty();
        proof {
            assert(flat(old(out)@) + more == flat(old(out)@));
            assert(frames_of(old(self).done@) + more == frames_of(old(self).done@));
        }
        let mut i: usize = 0;
        while i < v.len()
            invariant
                i <= v@.len(),
                forall|k: int| 0 <= k < v@.len() ==> 0 < #[trigger] v@[k] <= ZEROS_MAX,
                v@ == zero_pieces(len as nat),
                self.zeros.wf(),
                self.pending == old(self).pending,
                self.next == old(self).next,
                self.first == old(self).first,
                all_decode(self.done@),
                self.table@ == table_for(self.first@, self.done@),
                held(self.done@) == held(old(self).done@) + zero_contents(len as nat).take(i as int),
                flat(out@) == flat(old(out)@) + more,
                frames_of(self.done@) == frames_of(old(self).done@) + more,
            decreases v@.len() - i,
        {
            let piece: u64 = v[i];
            match self.zeros.frame(piece) {
                Ok(frame) => {
                    let ghost before = self.done@;
                    let ghost f = frame@;
                    self.give(frame, piece, out);
                    proof {
                        let d = Done { frame: f, content: zeros(piece as nat) };
                        assert(self.done@ == before.push(d));
                        assert(self.done@.drop_last() == before);
                        assert(flat(old(out)@) + (more + f) == flat(old(out)@) + more + f);
                        assert(frames_of(old(self).done@) + (more + f) == frames_of(old(self).done@) + more + f);
                        assert(held(self.done@) == held(before).push(d.content));
                        assert(zero_contents(len as nat)[i as int] == d.content);
                        assert(held(old(self).done@) + zero_contents(len as nat).take(i + 1) == (held(old(self).done@)
                            + zero_contents(len as nat).take(i as int)).push(d.content));
                        more = more + f;
                    }
                },
                Err(e) => {
                    return Err(compress_error(e.as_str()));
                },
            }
            i = i + 1;
        }
        proof {
            assert(zero_contents(len as nat).take(v@.len() as int) == zero_contents(len as nat));
            assert(flat(out@) == flat(old(out)@) + more);
        }
        Ok(())
    }

    /// Takes the piece of number `seq`, and gives out the frames whose turn has come.
    #[verifier::spinoff_prover]
    #[verifier::rlimit(30)]
    pub fn put(&mut self, seq: u64, piece: Piece) -> (r: Result<Vec<Vec<u8>>, String>)
        requires
            old(self).wf(),
            piece.wf(),
            old(self).next <= seq < u64::MAX,
        ensures
            final(self).first == old(self).first,
            r matches Ok(out) ==> {
                let all = old(self).pending@.insert(seq, piece);
                &&& final(self).wf()
                &&& old(self).next <= final(self).next
                &&& !all.contains_key(final(self).next)
                &&& forall|k: u64| old(self).next <= k < final(self).next ==> all.contains_key(k)
                &&& forall|k: u64|
                    #![trigger final(self).pending@.contains_key(k)]
                    final(self).pending@.contains_key(k) == (all.contains_key(k) && k > final(self).next)
                &&& forall|k: u64|
                    #![trigger final(self).pending@[k]]
                    final(self).pending@.contains_key(k) ==> final(self).pending@[k] == all[k]
                &&& held(final(self).done@) == held(old(self).done@) + run_contents(
                    all,
                    old(self).next as int,
                    final(self).next as int,
                )
                &&& frames_of(final(self).done@) == frames_of(old(self).done@) + flat(out@)
            },
            r matches Err(e) ==> cant_compress(e@) && exists|k: u64|
                old(self).next <= k && #[trigger] old(self).pending@.insert(seq, piece).contains_key(k)
                    && old(self).pending@.insert(seq, piece)[k] is Free,
    {
        let ghost all = self.pending@.insert(seq, piece);
        let ghost start = self.next;
        let ghost done0 = self.done@;
        hold(&mut self.pending, seq, piece);
        let mut out: Vec<Vec<u8>> = Vec::new();
        proof {
            assert(held(done0) + Seq::<Seq<u8>>::empty() == held(done0));
            assert(frames_of(done0) + flat(out@) == frames_of(done0));
            assert forall|k: u64| #![trigger self.pending@[k]] self.pending@.contains_key(k) implies self.pending@[k].wf()
                && self.next <= k < u64::MAX by {
                if k != seq {
                    assert(old(self).pending@[k].wf());
                }
            }
            assert forall|k: u64| #![trigger self.pending@.contains_key(k)] self.pending@.contains_key(k) implies k
                >= self.next by {
                assert(self.pending@[k].wf());
            }
        }
        loop
            invariant
                self.zeros.wf(),
                self.first == old(self).first,
                all_decode(self.done@),
                self.table@ == table_for(self.first@, self.done@),
                start <= self.next <= u64::MAX,
                start == old(self).next,
                done0 == old(self).done@,
                all == old(self).pending@.insert(seq, piece),
                forall|k: u64| start <= k < self.next ==> all.contains_key(k),
                forall|k: u64|
                    #![trigger self.pending@.contains_key(k)]
                    self.pending@.contains_key(k) == (all.contains_key(k) && k >= self.next),
                forall|k: u64|
                    #![trigger self.pending@[k]]
                    self.pending@.contains_key(k) ==> self.pending@[k] == all[k] && self.pending@[k].wf() && self.next
                        <= k < u64::MAX,
                held(self.done@) == held(done0) + run_contents(all, start as int, self.next as int),
                frames_of(self.done@) == frames_of(done0) + flat(out@),
            decreases u64::MAX - self.next,
        {
            let ghost was = self.pending@;
            let ghost at = self.next;
            let ghost done1 = self.done@;
            let ghost out1 = out@;
            match release(&mut self.pending, self.next) {
                None => {
                    assert(!was.contains_key(at));
                    assert(self.pending@ == was);
                    assert(!all.contains_key(at));
                    assert forall|k: u64|
                        #![trigger self.pending@.contains_key(k)]
                        self.pending@.contains_key(k) == (all.contains_key(k) && k > self.next) by {}
                    return Ok(out);
                },
                Some(p) => {
                    proof {
                        assert(was.contains_key(at) && p == was[at]);
                        assert(self.pending@ == was.remove(at));
                        assert(was[at].wf());
                        assert(run_contents(all, start as int, at + 1) == run_contents(all, start as int, at as int)
                            + all[at].contents());
                    }
                    match p {
                        Piece::Data { frame, len } => {
                            let ghost f = frame@;
                            self.give(frame, len as u64, &mut out);
                            proof {
                                assert(self.done@.drop_last() == done1);
                                assert(held(self.done@) == held(done1) + seq![zstd_content(f)->0]);
                                assert(frames_of(self.done@) == frames_of(done0) + flat(out1) + f);
                                assert(frames_of(done0) + (flat(out1) + f) == frames_of(done0) + flat(out1) + f);
                            }
                        },
                        Piece::Free(len) => {
                            proof {
                                let n = frames_of(done0).len() as int;
                                assert(frames_of(done1).skip(n) == flat(out1));
                            }
                            match self.give_zeros(len, &mut out) {
                                Ok(()) => {
                                    proof {
                                        let more = choose|more: Seq<u8>|
                                            #![trigger flat(out1) + more]
                                            flat(out@) == flat(out1) + more && frames_of(self.done@) == frames_of(done1)
                                                + more;
                                        assert(frames_of(done0) + flat(out1) + more == frames_of(done0) + (flat(out1) + more));
                                    }
                                },
                                Err(e) => {
                                    assert(all.contains_key(at) && all[at] is Free);
                                    return Err(e);
                                },
                            }
                        },
                    }
                    proof {
                        assert(held(self.done@) == held(done1) + all[at].contents());
                        let (x, y, z) = (held(done0), run_contents(all, start as int, at as int), all[at].contents());
                        assert(x + y + z == x + (y + z));
                    }
                    self.next = self.next + 1;
                },
            }
        }
    }

    /// The seek table, once every piece was put.
    pub fn finish(&self) -> (r: Result<Vec<u8>, String>)
        requires
            self.wf(),
        ensures
            match r {
                Ok(table) => self.pending@.is_empty() && table@ == seek_table_of(table_for(self.first@, self.done@)),
                Err(e) => !self.pending@.is_empty() && e@ == "internal error: parts of the image went missing"@,
            },
    {
        if !self.pending.is_empty() {
            return Err("internal error: parts of the image went missing".to_owned());
        }
        Ok(seek_table(self.table.as_slice()))
    }
}

/// Is `v` the smart image of a drive with the map `m`, made of the frames in `done`?
pub open spec fn made_of(v: Seq<u8>, m: Parts, done: Seq<Done>) -> bool {
    &&& all_decode(done)
    &&& v == map_frame_of(m) + frames_of(done) + seek_table_of(table_for(map_frame_of(m).len(), done))
}

/// Is `v` a smart image of `drive`: a frame for each piece of used data and frames of zeros
/// for what the map calls free, after the map and before the seek table?
pub open spec fn is_image(v: Seq<u8>, m: Parts, drive: Seq<u8>) -> bool {
    exists|done: Seq<Done>|
        #[trigger] made_of(v, m, done) && held(done) == parts_contents(parts_of(m), drive)
}

fn push_bytes(out: &mut Vec<u8>, more: &[u8])
    ensures
        final(out)@ == old(out)@ + more@,
{
    let mut copy: Vec<u8> = slice_to_vec(more);
    out.append(&mut copy);
}

fn push_frames(out: &mut Vec<u8>, frames: &Vec<Vec<u8>>)
    ensures
        final(out)@ == old(out)@ + flat(frames@),
{
    let mut i: usize = 0;
    proof {
        assert(frames@.take(0) == Seq::<Vec<u8>>::empty());
        assert(old(out)@ + Seq::<u8>::empty() == old(out)@);
    }
    while i < frames.len()
        invariant
            i <= frames@.len(),
            out@ == old(out)@ + flat(frames@.take(i as int)),
        decreases frames@.len() - i,
    {
        push_bytes(out, frames[i].as_slice());
        proof {
            assert(frames@.take(i + 1).drop_last() == frames@.take(i as int));
            let (a, b, c) = (old(out)@, flat(frames@.take(i as int)), frames@[i as int]@);
            assert(a + b + c == a + (b + c));
        }
        i = i + 1;
    }
    proof { assert(frames@.take(frames@.len() as int) == frames@); }
}

/// The bytes of used data in a part.
pub open spec fn part_used(p: Part) -> nat {
    match p {
        Part::Data { len, .. } => len as nat,
        Part::Free(_) => 0,
    }
}

/// The bytes of used data in some parts.
pub open spec fn parts_used(v: Seq<Part>) -> nat
    decreases v.len(),
{
    if v.len() == 0 {
        0
    } else {
        parts_used(v.drop_last()) + part_used(v.last())
    }
}

proof fn lemma_parts_used_concat(a: Seq<Part>, b: Seq<Part>)
    ensures
        parts_used(a + b) == parts_used(a) + parts_used(b),
    decreases b.len(),
{
    if b.len() == 0 {
        assert(a + b == a);
    } else {
        assert((a + b).drop_last() == a + b.drop_last());
        lemma_parts_used_concat(a, b.drop_last());
    }
}

proof fn lemma_data_used(v: Seq<(u64, usize)>)
    ensures
        parts_used(data_parts(v)) == piece_total(v),
    decreases v.len(),
{
    if v.len() > 0 {
        lemma_data_used(v.drop_last());
        assert(data_parts(v).drop_last() == data_parts(v.drop_last()));
    }
}

proof fn lemma_gap_used(pos: int, start: int)
    ensures
        parts_used(gap(pos, start)) == 0,
{
    if start > pos {
        assert(gap(pos, start).drop_last() == Seq::<Part>::empty());
        assert(parts_used(Seq::<Part>::empty()) == 0);
    }
}

proof fn lemma_upto_used(extents: Seq<Extent>)
    requires
        forall|i: int| 0 <= i < extents.len() ==> (#[trigger] extents[i]).end() <= u64::MAX,
    ensures
        parts_used(parts_upto(extents)) == total(extents),
    decreases extents.len(),
{
    if extents.len() > 0 {
        let rest = extents.drop_last();
        let e = extents.last();
        lemma_upto_used(rest);
        let g = gap(end_of(rest), e.start as int);
        let cut = cut_up(e.start as int, e.end(), IMAGE_CHUNK as int);
        lemma_parts_used_concat(parts_upto(rest) + g, data_parts(cut));
        lemma_parts_used_concat(parts_upto(rest), g);
        lemma_gap_used(end_of(rest), e.start as int);
        lemma_data_used(cut);
        lemma_cut_up(e.start as int, e.end(), IMAGE_CHUNK as int);
    }
}

proof fn lemma_all_used(m: Parts)
    requires
        m.wf(),
    ensures
        parts_used(parts_of(m)) == total(m.extents),
{
    assert forall|i: int| 0 <= i < m.extents.len() implies (#[trigger] m.extents[i]).end() <= u64::MAX by {
        assert(m.extents[i].end() <= m.size);
    }
    lemma_upto_used(m.extents);
    lemma_parts_used_concat(parts_upto(m.extents), gap(end_of(m.extents), m.size as int));
    lemma_gap_used(end_of(m.extents), m.size as int);
}

/// The smart image of a drive that is in memory: the map, the drive in frames, the seek
/// table. It fails only where zstd does. Progress counts the used data, and the bytes of
/// the image as written.
#[verifier::spinoff_prover]
#[verifier::rlimit(40)]
pub fn to_image(drive: &[u8], map: &SpaceMap, progress: &mut Progress) -> (r: Result<Vec<u8>, String>)
    requires
        map@.wf(),
        drive@.len() == map.size,
    ensures
        match r {
            Ok(v) => {
                &&& is_image(v@, map@, drive@)
                &&& final(progress).done == counted(old(progress).done, total(map.extents@))
                &&& final(progress).written == counted(old(progress).written, v@.len())
            },
            Err(e) => cant_compress(e@),
        },
{
    let parts: Vec<Part> = image_parts(map);
    let first: Vec<u8> = map_frame(map);
    let mut c: zstd::bulk::Compressor<'static> = match compressor() {
        Ok(c) => c,
        Err(e) => return Err(compress_error(e.as_str())),
    };
    let mut w: ImageWriter = ImageWriter::new(first.len());
    let mut out: Vec<u8> = slice_to_vec(first.as_slice());
    count(progress, 0, out.len() as u64);
    let mut i: usize = 0;
    proof {
        lemma_counted(old(progress).done, 0, 0);
        lemma_all_used(map@);
        lemma_parts_inside(map@);
        assert(out@ == first@ + frames_of(w.done@));
        assert(parts@.take(0) == Seq::<Part>::empty());
    }
    while i < parts.len()
        invariant
            i <= parts@.len(),
            i < u64::MAX || parts@.len() <= u64::MAX,
            drive@.len() == map.size,
            parts@ == parts_of(map@),
            forall|k: int| 0 <= k < parts@.len() ==> part_inside(#[trigger] parts@[k], map.size as int),
            first@ == map_frame_of(map@),
            w.wf(),
            w.first@ == first@.len(),
            w.next == i,
            w.pending@ == vstd::map::Map::<u64, Piece>::empty(),
            out@ == first@ + frames_of(w.done@),
            compressor_set(c) == for_used_data(),
            held(w.done@) == parts_contents(parts@.take(i as int), drive@),
            progress.done == counted(old(progress).done, parts_used(parts@.take(i as int))),
            progress.written == counted(old(progress).written, out@.len()),
        decreases parts@.len() - i,
    {
        proof {
            assert(part_inside(parts@[i as int], map.size as int));
            assert(parts@.take(i + 1).drop_last() == parts@.take(i as int));
            assert(parts.len() <= usize::MAX);
        }
        let used: usize = match parts[i] {
            Part::Free(_) => 0,
            Part::Data { len, .. } => len,
        };
        let piece: Piece = match parts[i] {
            Part::Free(len) => Piece::Free(len),
            Part::Data { off, len } => {
                assert(off + len <= drive.len());
                let data: &[u8] = slice_subrange(drive, off as usize, off as usize + len);
                let mut frame: Vec<u8> = Vec::new();
                match compress(&mut c, data, &mut frame) {
                    Ok(()) => Piece::Data { frame, len },
                    Err(e) => return Err(compress_error(e.as_str())),
                }
            },
        };
        assert(piece.contents() == part_contents(parts@[i as int], drive@));
        let ghost all = w.pending@.insert(i as u64, piece);
        let ghost before = w;
        match w.put(i as u64, piece) {
            Ok(frames) => {
                proof {
                    assert(all.contains_key(i as u64));
                    assert(!all.contains_key((i + 1) as u64));
                    assert(w.next == i + 1) by {
                        if w.next > i + 1 {
                            assert(all.contains_key((i + 1) as u64));
                        }
                    }
                    assert(run_contents(all, i as int, i as int) == Seq::<Seq<u8>>::empty());
                    assert(run_contents(all, i as int, i + 1) == all[i as u64].contents());
                    assert(w.pending@ == vstd::map::Map::<u64, Piece>::empty());
                    let (x, y, z) = (first@, frames_of(before.done@), flat(frames@));
                    assert(x + y + z == x + (y + z));
                }
                let had: usize = out.len();
                push_frames(&mut out, &frames);
                count(progress, used as u64, (out.len() - had) as u64);
                proof {
                    lemma_counted(old(progress).done, parts_used(parts@.take(i as int)), used as nat);
                    lemma_counted(old(progress).written, had as nat, (out@.len() - had) as nat);
                }
            },
            Err(e) => return Err(e),
        }
        i = i + 1;
    }
    proof { assert(parts@.take(parts@.len() as int) == parts@); }
    match w.finish() {
        Ok(table) => {
            push_bytes(&mut out, table.as_slice());
            proof {
                lemma_counted(old(progress).done, parts_used(parts@), 0);
                lemma_counted(old(progress).written, (out@.len() - table@.len()) as nat, table@.len());
            }
            count(progress, 0, table.len() as u64);
            proof { assert(made_of(out@, map@, w.done@)); }
            Ok(out)
        },
        Err(e) => Err(e),
    }
}

/// Does a part lie inside a drive of `size` bytes, and in one frame?
pub open spec fn part_inside(p: Part, size: int) -> bool {
    match p {
        Part::Data { off, len } => off + len <= size && len <= IMAGE_CHUNK,
        Part::Free(n) => n <= size,
    }
}

proof fn lemma_parts_inside(m: Parts)
    requires
        m.wf(),
    ensures
        forall|k: int| 0 <= k < parts_of(m).len() ==> part_inside(#[trigger] parts_of(m)[k], m.size as int),
{
    lemma_upto_inside(m, m.extents.len() as int);
    assert(m.extents.take(m.extents.len() as int) == m.extents);
    let v = parts_of(m);
    let a = parts_upto(m.extents);
    assert forall|k: int| 0 <= k < v.len() implies part_inside(#[trigger] v[k], m.size as int) by {
        if k < a.len() {
            assert(v[k] == a[k]);
        } else {
            if m.extents.len() > 0 {
                assert(m.extents[m.extents.len() - 1].end() <= m.size);
            }
        }
    }
}

proof fn lemma_upto_inside(m: Parts, n: int)
    requires
        m.wf(),
        0 <= n <= m.extents.len(),
    ensures
        forall|k: int|
            0 <= k < parts_upto(m.extents.take(n)).len() ==> part_inside(
                #[trigger] parts_upto(m.extents.take(n))[k],
                m.size as int,
            ),
    decreases n,
{
    if n > 0 {
        lemma_upto_inside(m, n - 1);
        let e = m.extents[n - 1];
        assert(e.end() <= m.size);
        let t = m.extents.take(n);
        assert(t.drop_last() == m.extents.take(n - 1));
        assert(t.last() == e);
        let a = parts_upto(m.extents.take(n - 1));
        let g = gap(end_of(m.extents.take(n - 1)), e.start as int);
        let cut = cut_up(e.start as int, e.end(), IMAGE_CHUNK as int);
        lemma_cut_up(e.start as int, e.end(), IMAGE_CHUNK as int);
        let v = parts_upto(t);
        if n >= 2 {
            assert(m.extents.take(n - 1).last() == m.extents[n - 2]);
        }
        assert forall|k: int| 0 <= k < v.len() implies part_inside(#[trigger] v[k], m.size as int) by {
            if k < a.len() {
                assert(v[k] == a[k]);
            } else if k < a.len() + g.len() {
                assert(v[k] == g[k - a.len()]);
            } else {
                let j = k - a.len() - g.len();
                assert(v[k] == data_parts(cut)[j]);
                assert(cut[j].1 <= IMAGE_CHUNK);
            }
        }
    }
}

/// Does it say that zstd can't compress, and why?
pub open spec fn cant_compress(text: Seq<char>) -> bool {
    exists|why: Seq<char>| text == #[trigger] compress_text(why)
}

pub open spec fn compress_text(why: Seq<char>) -> Seq<char> {
    "couldn't compress: "@ + plain_words(why)
}

fn compress_error(e: &str) -> (s: String)
    ensures
        s@ == compress_text(e@),
        cant_compress(s@),
{
    let mut s: String = "couldn't compress: ".to_owned();
    s.append(why(e).as_str());
    assert(s@ == compress_text(e@));
    s
}

/// The sums of what the seek table lists.
pub open spec fn packed_sum(frames: Seq<Frame>) -> nat
    decreases frames.len(),
{
    if frames.len() == 0 {
        0
    } else {
        packed_sum(frames.drop_last()) + frames.last().packed as nat
    }
}

pub open spec fn len_sum(frames: Seq<Frame>) -> nat
    decreases frames.len(),
{
    if frames.len() == 0 {
        0
    } else {
        len_sum(frames.drop_last()) + frames.last().len as nat
    }
}

proof fn lemma_sums(first: nat, done: Seq<Done>)
    requires
        all_decode(done),
        first <= u32::MAX,
    ensures
        packed_sum(table_for(first, done)) == first + frames_of(done).len(),
        len_sum(table_for(first, done)) == contents_of(done).len(),
    decreases done.len(),
{
    let t = table_for(first, done);
    if done.len() == 0 {
        assert(t.drop_last() == Seq::<Frame>::empty());
        assert(packed_sum(Seq::<Frame>::empty()) == 0 && len_sum(Seq::<Frame>::empty()) == 0);
    } else {
        let rest = done.drop_last();
        let d = done.last();
        assert forall|i: int| 0 <= i < rest.len() implies {
            &&& is_frame((#[trigger] rest[i]).frame, rest[i].content)
            &&& rest[i].content.len() <= ZEROS_MAX
        } by {
            assert(rest[i] == done[i]);
        }
        lemma_sums(first, rest);
        assert(t.drop_last() == table_for(first, rest));
        assert(t.last() == listing(d));
        assert(done[done.len() - 1] == d);
    }
}

/// What is known of a smart image of `drive`, and of the frames it is made of: the map comes
/// first, the seek table last. The table lists the map's frame and then every frame with its
/// sizes, which add up to where the table starts and to the drive's size. The frames unpack
/// to the drive, with zeros for free space.
pub open spec fn reads_back(v: Seq<u8>, m: Parts, drive: Seq<u8>, done: Seq<Done>) -> bool {
    let frames = table_for(map_frame_of(m).len(), done);
    &&& made_of(v, m, done)
    &&& contents_of(done) == used_only(drive, m.extents)
    &&& packed_sum(frames) == map_frame_of(m).len() + frames_of(done).len()
    &&& len_sum(frames) == m.size
    &&& announced(v) matches Some(len)
    &&& map_frame_of(m).len() == 8 + len
    &&& parsed(head_text(v, len), MAGIC_V2@) == Some(Some(m))
    &&& frames.len() <= MAX_FRAMES ==> {
        &&& place_of(v.skip(v.len() - 9), v.len() as u64) matches Ok(place)
        &&& place.start == map_frame_of(m).len() + frames_of(done).len()
        &&& place.start + place.len + 9 == v.len()
        &&& listed(v.subrange(place.start as int, place.start + place.len), place) == Ok::<
            Seq<Frame>,
            Fault,
        >(frames)
    }
}

/// A smart image reads back: its head gives the map, its end gives the seek table, which
/// lists the map's frame and then every frame with its sizes; and those frames decode to
/// the drive, with zeros for free space.
pub proof fn law_image_reads_back(v: Seq<u8>, m: Parts, drive: Seq<u8>)
    requires
        m.wf(),
        drive.len() == m.size,
        none_empty(m.extents),
        countable(m),
        m.extents.len() <= usize::MAX,
        is_image(v, m, drive),
        v.len() <= u64::MAX,
        vstd::utf8::encode_utf8(map_text(m, MAGIC_V2@)).len() <= MAP_MAX,
    ensures
        exists|done: Seq<Done>|
            #[trigger] reads_back(v, m, drive, done) && held(done) == parts_contents(parts_of(m), drive),
{
    let done = choose|done: Seq<Done>|
        #[trigger] made_of(v, m, done) && held(done) == parts_contents(parts_of(m), drive);
    let frames = table_for(map_frame_of(m).len(), done);
    let head = map_frame_of(m);
    let tail = seek_table_of(frames);
    law_map_round_trip(m, MAGIC_V2@);
    lemma_head(m, frames_of(done) + tail);
    assert(v == head + (frames_of(done) + tail));
    lemma_contents_joined(done);
    lemma_parts_contents(parts_of(m), drive);
    law_parts_are_the_drive(m, drive);
    lemma_sums(head.len(), done);
    if frames.len() <= MAX_FRAMES {
        let before = head + frames_of(done);
        lemma_seek_table_len(frames);
        law_seek_table_round_trip(before, frames);
        assert(v == before + tail);
    }
    assert(reads_back(v, m, drive, done));
}

} // verus!
