//! Restores of smart images of version 2. The seek table tells where each frame stands and
//! what part of the drive it holds, so frames of free space are passed over, and the used
//! data of the others goes to its places.

use vstd::prelude::*;
use vstd::slice::*;
use vstd::string::*;
use crate::engine::copy::{
    all_decode, contents_of, count, counted, fits, frames_of, held, is_image, law_image_reads_back, lemma_counted,
    len_sum, listing, made_of, packed_sum, parts_contents, parts_of, reads_back, table_for, too_much, too_much_of,
    used_only, Done,
};
use crate::engine::formats::source::{bad, holds, le32_bytes};
use crate::engine::image::{
    announced, countable, head_text, law_parsed_maps_are_in_order, law_runs_follow_the_map, lemma_place, listed,
    map_frame_of, map_text, place_of, read_head, read_seek_table, run_at, seek_table_of, seek_table_place,
    unpack_frame, zstd_content, Cursor, Frame, Head, Parts, SpaceMap, TablePlace, FOOTER_LEN, MAGIC_V2, MAP_FRAME,
    MAP_MAX, MAX_FRAMES, ZEROS_MAX,
};
use crate::engine::progress::Progress;
use crate::engine::restore::{
    damaged, damaged_text, format_in, frame_map, law_used_bytes_in_parts, learned, lemma_used_run, no_empty_put,
    placed, put_views, spread, start_of, used_bytes, used_puts, way_of, Put, Way, SKIPPABLE, XZ_MAGIC,
};
use crate::engine::{ImageFormat, ImageInfo, SmartInfo};
use crate::error::{bad_fault, Error, Fault};
use crate::smart::{any_holds, end_of, in_order, none_empty, total, Extent};

verus! {

/// Is any of what a frame holds, from `pos` on the drive, used data? (Only then is it read.)
pub open spec fn wanted(m: Parts, f: Frame, pos: int) -> bool {
    f.len > 0 && run_at(m.extents, pos, f.len as int) != (false, f.len as int)
}

/// What is wrong with what a seek table lists, if anything is: it should start with the
/// map's frame of `head` bytes, no frame may hold more than 64 MiB, and the sizes should add
/// up to where the table starts and to the drive's size.
pub open spec fn table_fault(m: Parts, frames: Seq<Frame>, head: int, start: int) -> Option<Seq<char>> {
    if frames.len() == 0 || frames[0].packed != head || frames[0].len != 0 {
        Some("a seek table without the map"@)
    } else if exists|i: int| 0 <= i < frames.len() && (#[trigger] frames[i]).len > ZEROS_MAX {
        Some("a frame that's too big"@)
    } else if packed_sum(frames) != start || len_sum(frames) != m.size {
        Some("a seek table that doesn't add up"@)
    } else {
        None
    }
}

/// What `frames`, the first of which stands at `at` in the image and goes to `pos` on the
/// drive, put on the drive: every used byte with its place.
pub open spec fn frames_put(m: Parts, frames: Seq<Frame>, image: Seq<u8>, at: int, pos: int) -> Result<
    Seq<(int, u8)>,
    Seq<char>,
>
    decreases frames.len(),
{
    if frames.len() == 0 {
        Ok(Seq::empty())
    } else {
        let f = frames[0];
        let rest = frames_put(m, frames.skip(1), image, at + f.packed, pos + f.len);
        if !wanted(m, f, pos) {
            rest
        } else {
            match zstd_content(image.subrange(at, at + f.packed)) {
                Some(c) if c.len() == f.len => match rest {
                    Ok(r) => Ok(used_bytes(m.extents, pos, c) + r),
                    Err(e) => Err(e),
                },
                _ => Err(damaged_text("a frame that doesn't unpack"@)),
            }
        }
    }
}

/// A smart image of version 2 on its way to a drive.
pub struct SmartFrames<'a> {
    pub map: &'a SpaceMap,
    pub cursor: Cursor<'a>,
    /// What the seek table lists.
    pub frames: &'a [Frame],
    /// The frame whose turn it is,
    pub next: usize,
    /// where it stands in the image,
    pub at: u64,
    /// and where what it holds goes on the drive.
    pub pos: u64,
}

fn check_table(map: &SpaceMap, frames: &[Frame], head: u64, start: u64) -> (r: Result<(), String>)
    ensures
        match (r, table_fault(map@, frames@, head as int, start as int)) {
            (Ok(_), None) => true,
            (Err(e), Some(t)) => e@ == damaged_text(t),
            _ => false,
        },
{
    if frames.len() == 0 || frames[0].packed as u64 != head || frames[0].len != 0 {
        return Err(damaged("a seek table without the map"));
    }
    let mut packed: u128 = 0;
    let mut len: u128 = 0;
    let mut i: usize = 0;
    proof {
        assert(frames@.take(0) == Seq::<Frame>::empty());
    }
    while i < frames.len()
        invariant
            i <= frames@.len(),
            packed == packed_sum(frames@.take(i as int)),
            len == len_sum(frames@.take(i as int)),
            packed <= i * 0xffff_ffff,
            len <= i * 0xffff_ffff,
            forall|k: int| 0 <= k < i ==> (#[trigger] frames@[k]).len <= ZEROS_MAX,
            frames@.len() > 0 && frames@[0].packed == head && frames@[0].len == 0,
        decreases frames@.len() - i,
    {
        let f: Frame = frames[i];
        if f.len as u64 > ZEROS_MAX {
            assert(frames@[i as int].len > ZEROS_MAX);
            return Err(damaged("a frame that's too big"));
        }
        packed = packed + f.packed as u128;
        len = len + f.len as u128;
        proof {
            assert(frames@.take(i + 1).drop_last() == frames@.take(i as int));
        }
        i = i + 1;
    }
    proof {
        assert(frames@.take(frames@.len() as int) == frames@);
    }
    if packed != start as u128 || len != map.size as u128 {
        return Err(damaged("a seek table that doesn't add up"));
    }
    Ok(())
}

proof fn lemma_sums_first(frames: Seq<Frame>)
    requires
        frames.len() > 0,
    ensures
        packed_sum(frames) == frames[0].packed + packed_sum(frames.skip(1)),
        len_sum(frames) == frames[0].len + len_sum(frames.skip(1)),
    decreases frames.len(),
{
    if frames.len() == 1 {
        assert(frames.drop_last() == Seq::<Frame>::empty());
        assert(frames.skip(1) == Seq::<Frame>::empty());
        assert(packed_sum(Seq::<Frame>::empty()) == 0 && len_sum(Seq::<Frame>::empty()) == 0);
    } else {
        lemma_sums_first(frames.drop_last());
        assert(frames.drop_last().skip(1) == frames.skip(1).drop_last());
    }
}

impl<'a> SmartFrames<'a> {
    pub open spec fn wf(&self) -> bool {
        &&& self.map@.wf()
        &&& self.cursor.wf(self.pos as int)
        &&& self.cursor.extents@ == self.map.extents@
        &&& self.next <= self.frames@.len()
        &&& self.end() <= u64::MAX
        &&& self.pos + len_sum(self.frames@.skip(self.next as int)) == self.map.size
        &&& forall|i: int| 0 <= i < self.frames@.len() ==> (#[trigger] self.frames@[i]).len <= ZEROS_MAX
    }

    /// What is still to be put of an image.
    pub open spec fn left(&self, image: Seq<u8>) -> Result<Seq<(int, u8)>, Seq<char>> {
        frames_put(self.map@, self.frames@.skip(self.next as int), image, self.at as int, self.pos as int)
    }

    /// Where the frames end in the image.
    pub open spec fn end(&self) -> int {
        self.at + packed_sum(self.frames@.skip(self.next as int))
    }

    /// Starts a restore by a map whose frame takes `head` bytes and the frames of a seek
    /// table that starts at `start`.
    pub fn new(map: &'a SpaceMap, frames: &'a [Frame], head: u64, start: u64) -> (r: Result<SmartFrames<'a>, String>)
        requires
            map@.wf(),
        ensures
            match (r, table_fault(map@, frames@, head as int, start as int)) {
                (Ok(s), None) => {
                    &&& s.wf()
                    &&& s.map@ == map@
                    &&& s.frames@ == frames@
                    &&& s.next == 0
                    &&& s.at == 0
                    &&& s.pos == 0
                },
                (Err(e), Some(t)) => e@ == damaged_text(t),
                _ => false,
            },
    {
        match check_table(map, frames, head, start) {
            Ok(()) => {},
            Err(e) => return Err(e),
        }
        proof {
            assert(frames@.skip(0) == frames@);
            assert forall|i: int| 0 <= i < frames@.len() implies (#[trigger] frames@[i]).len <= ZEROS_MAX by {}
        }
        Ok(SmartFrames { map, cursor: Cursor::new(map), frames, next: 0, at: 0, pos: 0 })
    }

    /// Passes over frames of free space: where in the image the next frame with used data
    /// stands, and how many bytes it takes. None when there is none left.
    pub fn next(&mut self) -> (r: Option<(u64, usize)>)
        requires
            old(self).wf(),
        ensures
            final(self).wf(),
            final(self).map == old(self).map,
            final(self).frames == old(self).frames,
            forall|image: Seq<u8>| #[trigger] final(self).left(image) == old(self).left(image),
            final(self).end() == old(self).end(),
            old(self).next <= final(self).next,
            match r {
                None => final(self).next == final(self).frames@.len(),
                Some((at, n)) => {
                    &&& final(self).next < final(self).frames@.len()
                    &&& at == final(self).at
                    &&& n == final(self).frames@[final(self).next as int].packed
                    &&& wanted(final(self).map@, final(self).frames@[final(self).next as int], final(self).pos as int)
                },
            },
    {
        while self.next < self.frames.len()
            invariant
                self.wf(),
                self.map == old(self).map,
                self.frames == old(self).frames,
                forall|image: Seq<u8>| #[trigger] self.left(image) == old(self).left(image),
                self.end() == old(self).end(),
                old(self).next <= self.next,
            decreases self.frames@.len() - self.next,
        {
            let f: Frame = self.frames[self.next];
            let ghost before = *self;
            let ghost rest = self.frames@.skip(self.next as int);
            proof {
                lemma_sums_first(rest);
                assert(rest[0] == f);
                assert(rest.skip(1) == self.frames@.skip(self.next + 1));
            }
            if f.len > 0 && !self.cursor.is_free(self.pos, f.len as u64) {
                proof {
                    assert forall|image: Seq<u8>| #[trigger] self.left(image) == old(self).left(image) by {
                        assert(before.left(image) == self.left(image));
                    }
                }
                return Some((self.at, f.packed as usize));
            }
            self.next = self.next + 1;
            self.at = self.at + f.packed as u64;
            self.pos = self.pos + f.len as u64;
            proof {
                assert forall|image: Seq<u8>| #[trigger] self.left(image) == old(self).left(image) by {
                    assert(before.left(image) == self.left(image));
                }
            }
        }
        None
    }

    /// Takes the frame whose turn it is, as it stands in the image: what goes to the target.
    pub fn put(&mut self, frame: &[u8]) -> (r: Result<Vec<Put>, String>)
        requires
            old(self).wf(),
            old(self).next < old(self).frames@.len(),
        ensures
            final(self).map == old(self).map,
            final(self).frames == old(self).frames,
            ({
                let f = old(self).frames@[old(self).next as int];
                match (r, zstd_content(frame@)) {
                    (Ok(puts), Some(c)) => {
                        &&& c.len() == f.len
                        &&& placed(put_views(puts@)) == used_bytes(old(self).map@.extents, old(self).pos as int, c)
                        &&& no_empty_put(puts@)
                        &&& final(self).wf()
                        &&& final(self).next == old(self).next + 1
                        &&& final(self).at == old(self).at + f.packed
                        &&& final(self).pos == old(self).pos + f.len
                    },
                    (Ok(_), None) => false,
                    (Err(e), Some(c)) => c.len() != f.len && e@ == damaged_text("a frame that doesn't unpack"@),
                    (Err(e), None) => e@ == damaged_text("a frame that doesn't unpack"@),
                }
            }),
    {
        let f: Frame = self.frames[self.next];
        proof {
            let rest = self.frames@.skip(self.next as int);
            lemma_sums_first(rest);
            assert(rest[0] == f);
            assert(rest.skip(1) == self.frames@.skip(self.next + 1));
        }
        let data: Vec<u8> = match unpack_frame(frame, f.len as usize) {
            Some(data) => data,
            None => return Err(damaged("a frame that doesn't unpack")),
        };
        if data.len() != f.len as usize {
            return Err(damaged("a frame that doesn't unpack"));
        }
        let pos: u64 = self.pos;
        let puts: Vec<Put> = used_puts(&mut self.cursor, pos, data.as_slice());
        self.next = self.next + 1;
        self.at = self.at + f.packed as u64;
        self.pos = pos + f.len as u64;
        Ok(puts)
    }
}

/// What the seek table of an image lists, and where it starts.
pub open spec fn table_in(image: Seq<u8>) -> Result<(Seq<Frame>, u64), Fault> {
    if image.len() < FOOTER_LEN {
        Err(bad_fault("no seek table"@))
    } else {
        match place_of(image.skip(image.len() - FOOTER_LEN), image.len() as u64) {
            Err(f) => Err(f),
            Ok(place) => match listed(image.subrange(place.start as int, place.start + place.len), place) {
                Err(f) => Err(f),
                Ok(frames) => Ok((frames, place.start)),
            },
        }
    }
}

/// The seek table of an image that is in memory.
pub fn image_table(image: &[u8]) -> (r: Result<(Vec<Frame>, u64), Error>)
    ensures
        match (r, table_in(image@)) {
            (Ok((frames, start)), Ok((l, at))) => frames@ == l && start == at,
            (Err(e), Err(f)) => e@ == f,
            _ => false,
        },
{
    let size: usize = image.len();
    if size < FOOTER_LEN {
        return Err(bad("no seek table"));
    }
    let footer: &[u8] = slice_subrange(image, size - FOOTER_LEN, size);
    proof {
        assert(footer@ == image@.skip(image@.len() - FOOTER_LEN));
        lemma_place(footer@, size as u64);
    }
    let place: TablePlace = match seek_table_place(footer, size as u64) {
        Ok(place) => place,
        Err(e) => return Err(e),
    };
    let from: usize = place.start as usize;
    let table: &[u8] = slice_subrange(image, from, from + place.len as usize);
    read_seek_table(table, place)
}

/// What the restore of a smart image puts on a drive: every used byte with its place.
pub open spec fn restored(image: Seq<u8>) -> Result<Seq<(int, u8)>, Seq<char>> {
    match frame_map(image) {
        None => Err(damaged_text("no map"@)),
        Some(m) => match table_in(image) {
            Err(f) => Err(damaged_text(f.what)),
            Ok((frames, start)) => match table_fault(m, frames, 8 + announced(image)->0, start as int) {
                Some(t) => Err(damaged_text(t)),
                None => frames_put(m, frames, image, 0, 0),
            },
        },
    }
}

/// What goes to the target of all that is left of an image that is in memory.
#[verifier::spinoff_prover]
#[verifier::rlimit(40)]
fn put_all(going: SmartFrames, image: &[u8]) -> (r: Result<Vec<Put>, String>)
    requires
        going.wf(),
        going.end() <= image@.len(),
    ensures
        match (r, going.left(image@)) {
            (Ok(puts), Ok(p)) => placed(put_views(puts@)) == p && no_empty_put(puts@),
            (Err(e), Err(t)) => e@ == t,
            _ => false,
        },
{
    let size: usize = image.len();
    let mut s: SmartFrames = going;
    let ghost all = s.left(image@);
    let mut out: Vec<Put> = Vec::new();
    proof {
        assert(put_views(out@) == Seq::<(int, Seq<u8>)>::empty());
        if let Ok(p) = all {
            assert(Seq::<(int, u8)>::empty() + p == p);
        }
    }
    loop
        invariant
            s.wf(),
            s.end() <= image@.len() == size,
            all == going.left(image@),
            no_empty_put(out@),
            all == (match s.left(image@) {
                Ok(rest) => Ok(placed(put_views(out@)) + rest),
                Err(e) => Err(e),
            }),
        decreases s.frames@.len() - s.next,
    {
        let ghost before = s;
        let next: Option<(u64, usize)> = s.next();
        assert(s.left(image@) == before.left(image@));
        let (at, n): (u64, usize) = match next {
            Some(f) => f,
            None => {
                proof {
                    let p = placed(put_views(out@));
                    assert(p + Seq::<(int, u8)>::empty() == p);
                }
                return Ok(out);
            },
        };
        let ghost rest = s.frames@.skip(s.next as int);
        proof {
            lemma_sums_first(rest);
            assert(rest[0] == s.frames@[s.next as int]);
            assert(rest.skip(1) == s.frames@.skip(s.next + 1));
        }
        assert(at + n <= size);
        let frame: &[u8] = slice_subrange(image, at as usize, at as usize + n);
        assert(frame@ == image@.subrange(s.at as int, s.at + rest[0].packed));
        match s.put(frame) {
            Ok(mut puts) => {
                proof {
                    lemma_placed_concat(put_views(out@), put_views(puts@));
                    assert(put_views(out@ + puts@) == put_views(out@) + put_views(puts@));
                    if let Ok(rest) = s.left(image@) {
                        let (x, y, z) = (placed(put_views(out@)), placed(put_views(puts@)), rest);
                        assert(x + y + z == x + (y + z));
                    }
                }
                out.append(&mut puts);
            },
            Err(e) => return Err(e),
        }
    }
}

/// What goes to the target of a smart image that is in memory, in order.
pub fn image_puts(image: &[u8]) -> (r: Result<Vec<Put>, String>)
    ensures
        match (r, restored(image@)) {
            (Ok(puts), Ok(p)) => placed(put_views(puts@)) == p && no_empty_put(puts@),
            (Err(e), Err(t)) => e@ == t,
            _ => false,
        },
{
    let (map, head): (SpaceMap, u64) = match read_head(image) {
        Some(Head { map: Ok(map), len }) => (map, len),
        _ => return Err(damaged("no map")),
    };
    proof {
        law_parsed_maps_are_in_order(head_text(image@, announced(image@)->0), MAGIC_V2@);
    }
    let (frames, start): (Vec<Frame>, u64) = match image_table(image) {
        Ok(t) => t,
        Err(e) => return Err(damaged(e.message())),
    };
    let s: SmartFrames = match SmartFrames::new(&map, frames.as_slice(), head, start) {
        Ok(s) => s,
        Err(e) => return Err(e),
    };
    proof {
        assert(frames@.skip(0) == frames@);
        lemma_place(image@.skip(image@.len() - FOOTER_LEN), image@.len() as u64);
    }
    put_all(s, image)
}

proof fn lemma_placed_concat(a: Seq<(int, Seq<u8>)>, b: Seq<(int, Seq<u8>)>)
    ensures
        placed(a + b) == placed(a) + placed(b),
    decreases b.len(),
{
    if b.len() == 0 {
        assert(a + b == a);
        assert(placed(a) + placed(b) == placed(a));
    } else {
        assert((a + b).drop_last() == a + b.drop_last());
        lemma_placed_concat(a, b.drop_last());
        let last = spread(b.last().0, b.last().1);
        let (x, y) = (placed(a), placed(b.drop_last()));
        assert(x + y + last == x + (y + last));
    }
}

// ---- Onto a drive -------------------------------------------------------------------------

/// `drive` with `data` at `pos`, as far as that is on the drive.
pub open spec fn overlay(drive: Seq<u8>, pos: int, data: Seq<u8>) -> Seq<u8> {
    Seq::new(
        drive.len(),
        |i: int|
            if pos <= i < pos + data.len() {
                data[i - pos]
            } else {
                drive[i]
            },
    )
}

/// `drive` after some puts.
pub open spec fn overwritten(drive: Seq<u8>, puts: Seq<(int, Seq<u8>)>) -> Seq<u8>
    decreases puts.len(),
{
    if puts.len() == 0 {
        drive
    } else {
        overlay(overwritten(drive, puts.drop_last()), puts.last().0, puts.last().1)
    }
}

/// How many of the puts from `from` on go to a drive of `size` bytes, before one doesn't fit.
pub open spec fn puts_fitting(puts: Seq<(int, Seq<u8>)>, size: int, from: int) -> int
    decreases puts.len() - from,
{
    if from < puts.len() && puts[from].0 + puts[from].1.len() <= size {
        puts_fitting(puts, size, from + 1)
    } else {
        from
    }
}

/// Writes to the drive `dst`, which is at `path`, what a restore gave, and counts the bytes.
/// What doesn't fit ends it: nothing of that or of what comes later is written.
pub fn write_puts(puts: &[Put], dst: &mut Vec<u8>, path: &str, progress: &mut Progress) -> (r: Result<(), String>)
    ensures
        ({
            let v = put_views(puts@);
            let n = puts_fitting(v, old(dst)@.len() as int, 0);
            &&& 0 <= n <= v.len()
            &&& final(dst)@ == overwritten(old(dst)@, v.take(n))
            &&& final(progress).done == counted(old(progress).done, placed(v.take(n)).len())
            &&& final(progress).written == counted(old(progress).written, placed(v.take(n)).len())
            &&& match r {
                Ok(_) => n == v.len(),
                Err(e) => n < v.len() && e@ == too_much_of(path@, old(dst)@.len() as u64),
            }
        }),
{
    let ghost v = put_views(puts@);
    let ghost before = dst@;
    let size: usize = dst.len();
    let mut k: usize = 0;
    proof {
        assert(v.take(0) == Seq::<(int, Seq<u8>)>::empty());
        lemma_counted(progress.done, 0, 0);
        lemma_counted(progress.written, 0, 0);
    }
    while k < puts.len()
        invariant
            k <= puts@.len(),
            v == put_views(puts@),
            before == old(dst)@,
            size == before.len(),
            dst@ == overwritten(before, v.take(k as int)),
            dst@.len() == size,
            puts_fitting(v, size as int, 0) == puts_fitting(v, size as int, k as int),
            progress.done == counted(old(progress).done, placed(v.take(k as int)).len()),
            progress.written == counted(old(progress).written, placed(v.take(k as int)).len()),
        decreases puts@.len() - k,
    {
        let p: &Put = &puts[k];
        let len: usize = p.data.len();
        assert(v[k as int] == (p.pos as int, p.data@));
        if !fits(true, size as u64, p.pos, len) {
            return Err(too_much(path, size as u64));
        }
        let at: usize = p.pos as usize;
        let ghost was = dst@;
        let mut n: usize = 0;
        while n < len
            invariant
                n <= len,
                len == p.data@.len(),
                at + len <= size,
                dst@.len() == size,
                was.len() == size,
                forall|i: int|
                    0 <= i < size ==> #[trigger] dst@[i] == (if at <= i < at + n {
                        p.data@[i - at]
                    } else {
                        was[i]
                    }),
            decreases len - n,
        {
            dst.set(at + n, p.data[n]);
            n = n + 1;
        }
        count(progress, len as u64, len as u64);
        proof {
            let t = v.take(k + 1);
            assert(t.drop_last() == v.take(k as int));
            assert(t.last() == v[k as int]);
            assert(dst@ == overlay(was, at as int, p.data@));
            lemma_counted(old(progress).done, placed(v.take(k as int)).len(), len as nat);
            lemma_counted(old(progress).written, placed(v.take(k as int)).len(), len as nat);
        }
        k = k + 1;
    }
    proof {
        assert(v.take(v.len() as int) == v);
    }
    Ok(())
}

/// `drive` after every byte of some was put in its place, as far as that is on the drive.
pub open spec fn laid(drive: Seq<u8>, bytes: Seq<(int, u8)>) -> Seq<u8>
    decreases bytes.len(),
{
    if bytes.len() == 0 {
        drive
    } else {
        let d = laid(drive, bytes.drop_last());
        let (i, b) = bytes.last();
        if 0 <= i < d.len() {
            d.update(i, b)
        } else {
            d
        }
    }
}

/// Is every place before `size`?
pub open spec fn all_on(bytes: Seq<(int, u8)>, size: int) -> bool {
    forall|k: int| 0 <= k < bytes.len() ==> (#[trigger] bytes[k]).0 < size
}

/// Restores a smart image that is in memory to the drive `dst`, which is at `path`: writes
/// what the map has, leaves the rest of the drive alone, and counts the bytes. Nothing is
/// written of an image that is damaged. Where the drive is too small, what comes before the
/// first part that doesn't fit is written.
pub fn restore_image(image: &[u8], dst: &mut Vec<u8>, path: &str, progress: &mut Progress) -> (r: Result<(), String>)
    ensures
        match restored(image@) {
            Err(t) => r matches Err(e) && e@ == t && *final(dst) == *old(dst) && *final(progress) == *old(progress),
            Ok(p) => match r {
                Ok(_) => {
                    &&& all_on(p, old(dst)@.len() as int)
                    &&& final(dst)@ == laid(old(dst)@, p)
                    &&& final(progress).done == counted(old(progress).done, p.len())
                    &&& final(progress).written == counted(old(progress).written, p.len())
                },
                Err(e) => {
                    &&& !all_on(p, old(dst)@.len() as int)
                    &&& e@ == too_much_of(path@, old(dst)@.len() as u64)
                    &&& exists|n: int|
                        0 <= n < p.len() && final(dst)@ == laid(old(dst)@, #[trigger] p.take(n)) && final(progress).done
                            == counted(old(progress).done, n as nat) && final(progress).written == counted(
                            old(progress).written,
                            n as nat,
                        )
                },
            },
        },
{
    let puts: Vec<Put> = match image_puts(image) {
        Ok(puts) => puts,
        Err(e) => return Err(e),
    };
    let ghost v = put_views(puts@);
    let ghost size = dst@.len() as int;
    let ghost n = puts_fitting(v, size, 0);
    proof {
        lemma_puts_fitting(v, size, 0);
        lemma_laid(dst@, v.take(n));
        if n == v.len() {
            assert(v.take(n) == v);
            lemma_all_on(v, size);
        } else {
            assert(v[n] == (puts@[n].pos as int, puts@[n].data@));
            let i = v[n].1.len() - 1;
            lemma_placed_has(v, n, i);
            let k = choose|k: int| 0 <= k < placed(v).len() && (#[trigger] placed(v)[k]).0 == v[n].0 + i;
            assert(!(placed(v)[k].0 < size));
            lemma_placed_part(v, n);
        }
    }
    write_puts(puts.as_slice(), dst, path, progress)
}

proof fn lemma_laid_concat(drive: Seq<u8>, a: Seq<(int, u8)>, b: Seq<(int, u8)>)
    ensures
        laid(drive, a + b) == laid(laid(drive, a), b),
        laid(drive, a).len() == drive.len(),
    decreases a.len() + b.len(),
{
    if b.len() == 0 {
        assert(a + b == a);
        if a.len() > 0 {
            lemma_laid_concat(drive, a.drop_last(), Seq::empty());
        }
    } else {
        assert((a + b).drop_last() == a + b.drop_last());
        lemma_laid_concat(drive, a, b.drop_last());
    }
}

proof fn lemma_laid_spread(drive: Seq<u8>, pos: int, data: Seq<u8>)
    ensures
        laid(drive, spread(pos, data)) == overlay(drive, pos, data),
    decreases data.len(),
{
    let s = spread(pos, data);
    if data.len() == 0 {
        assert(overlay(drive, pos, data) == drive);
    } else {
        lemma_laid_spread(drive, pos, data.drop_last());
        assert(s.drop_last() == spread(pos, data.drop_last()));
        assert(laid(drive, s) == overlay(drive, pos, data));
    }
}

/// Puts lay the bytes that they hold.
proof fn lemma_laid(drive: Seq<u8>, puts: Seq<(int, Seq<u8>)>)
    ensures
        overwritten(drive, puts) == laid(drive, placed(puts)),
    decreases puts.len(),
{
    if puts.len() > 0 {
        let rest = puts.drop_last();
        let (pos, data) = puts.last();
        lemma_laid(drive, rest);
        lemma_laid_concat(drive, placed(rest), spread(pos, data));
        lemma_laid_spread(laid(drive, placed(rest)), pos, data);
    }
}

proof fn lemma_all_on(puts: Seq<(int, Seq<u8>)>, size: int)
    requires
        forall|k: int| 0 <= k < puts.len() ==> (#[trigger] puts[k]).0 + puts[k].1.len() <= size,
    ensures
        all_on(placed(puts), size),
    decreases puts.len(),
{
    if puts.len() > 0 {
        let rest = puts.drop_last();
        assert forall|k: int| 0 <= k < rest.len() implies (#[trigger] rest[k]).0 + rest[k].1.len() <= size by {
            assert(puts[k] == rest[k]);
        }
        lemma_all_on(rest, size);
        let (a, b) = (placed(rest), spread(puts.last().0, puts.last().1));
        let all = placed(puts);
        assert(puts[puts.len() - 1] == puts.last());
        assert forall|k: int| 0 <= k < all.len() implies (#[trigger] all[k]).0 < size by {
            if k < a.len() {
                assert(all[k] == a[k]);
            } else {
                assert(all[k] == b[k - a.len()]);
            }
        }
    }
}

/// The first puts hold the first bytes; fewer, if one that holds something is left.
proof fn lemma_placed_part(puts: Seq<(int, Seq<u8>)>, n: int)
    requires
        0 <= n < puts.len(),
        puts[n].1.len() > 0,
    ensures
        placed(puts.take(n)).len() < placed(puts).len(),
        placed(puts).take(placed(puts.take(n)).len() as int) == placed(puts.take(n)),
{
    let (a, b) = (puts.take(n), puts.skip(n));
    assert(a + b == puts);
    lemma_placed_concat(a, b);
    assert(b[0] == puts[n]);
    lemma_placed_has(b, 0, 0);
    assert((placed(a) + placed(b)).take(placed(a).len() as int) == placed(a));
}

proof fn lemma_puts_fitting(v: Seq<(int, Seq<u8>)>, size: int, from: int)
    requires
        0 <= from <= v.len(),
    ensures
        from <= puts_fitting(v, size, from) <= v.len(),
        forall|k: int| from <= k < puts_fitting(v, size, from) ==> (#[trigger] v[k]).0 + v[k].1.len() <= size,
        puts_fitting(v, size, from) < v.len() ==> v[puts_fitting(v, size, from)].0 + v[puts_fitting(v, size, from)].1.len()
            > size,
    decreases v.len() - from,
{
    if from < v.len() && v[from].0 + v[from].1.len() <= size {
        lemma_puts_fitting(v, size, from + 1);
    }
}

proof fn lemma_placed_has(puts: Seq<(int, Seq<u8>)>, n: int, i: int)
    requires
        0 <= n < puts.len(),
        0 <= i < puts[n].1.len(),
    ensures
        exists|k: int| 0 <= k < placed(puts).len() && (#[trigger] placed(puts)[k]).0 == puts[n].0 + i,
    decreases puts.len(),
{
    let rest = puts.drop_last();
    let a = placed(rest);
    let b = spread(puts.last().0, puts.last().1);
    let all = placed(puts);
    assert(all == a + b);
    if n == rest.len() {
        assert(b[i].0 == puts[n].0 + i);
        assert(all[a.len() + i].0 == puts[n].0 + i);
    } else {
        lemma_placed_has(rest, n, i);
        let k = choose|k: int| 0 <= k < a.len() && (#[trigger] a[k]).0 == puts[n].0 + i;
        assert(all[k] == a[k]);
    }
}

/// The used bytes of the start of a drive lay just what the map has of it.
proof fn lemma_laid_used(extents: Seq<Extent>, data: Seq<u8>, before: Seq<u8>)
    ensures
        laid(before, used_bytes(extents, 0, data)).len() == before.len(),
        forall|i: int|
            0 <= i < before.len() ==> #[trigger] laid(before, used_bytes(extents, 0, data))[i] == (if i < data.len()
                && any_holds(extents, i) {
                data[i]
            } else {
                before[i]
            }),
        forall|k: int|
            0 <= k < used_bytes(extents, 0, data).len() ==> any_holds(
                extents,
                (#[trigger] used_bytes(extents, 0, data)[k]).0,
            ),
    decreases data.len(),
{
    if data.len() > 0 {
        let rest = data.drop_last();
        lemma_laid_used(extents, rest, before);
        let u = used_bytes(extents, 0, data);
        let a = used_bytes(extents, 0, rest);
        let last = data.len() - 1;
        assert(0 + data.len() - 1 == last);
        if any_holds(extents, last) {
            assert(u == a.push((last, data.last())));
            assert(u.drop_last() == a);
        } else {
            assert(u == a);
        }
        assert forall|k: int| 0 <= k < u.len() implies any_holds(extents, (#[trigger] u[k]).0) by {
            if k < a.len() {
                assert(u[k] == a[k]);
            }
        }
    }
}

/// What a drive holds after the used bytes of another one were put on it: those bytes where
/// the map has something, and what it held before everywhere else, past the end of the other
/// one too. As many bytes were put as the map has, and they fit where the map's last extent
/// does.
pub proof fn law_restored_drive(m: Parts, drive: Seq<u8>, before: Seq<u8>)
    requires
        m.wf(),
        drive.len() == m.size,
    ensures
        ({
            let p = used_bytes(m.extents, 0, drive);
            let after = laid(before, p);
            &&& after.len() == before.len()
            &&& forall|i: int|
                0 <= i < before.len() ==> #[trigger] after[i] == (if any_holds(m.extents, i) {
                    drive[i]
                } else {
                    before[i]
                })
            &&& p.len() == total(m.extents)
            &&& end_of(m.extents) <= before.len() ==> all_on(p, before.len() as int)
        }),
{
    law_used_bytes_count(m, drive);
    lemma_laid_used(m.extents, drive, before);
    let n = m.extents.len() as int;
    assert(m.extents.take(n) == m.extents);
    let p = used_bytes(m.extents, 0, drive);
    assert forall|i: int| drive.len() <= i implies !any_holds(m.extents, i) by {
        if n > 0 {
            assert(m.extents[n - 1].end() <= m.size);
        }
        lemma_between(m.extents, m.size as int, n, i);
    }
    if end_of(m.extents) <= before.len() {
        assert forall|k: int| 0 <= k < p.len() implies (#[trigger] p[k]).0 < before.len() by {
            if p[k].0 >= before.len() {
                lemma_between(m.extents, m.size as int, n, p[k].0);
            }
        }
    }
}

/// A drive that is big enough comes out of the restore of another one's image with that
/// one's used data in place, and everything else as it was.
pub proof fn law_image_comes_back(v: Seq<u8>, m: Parts, drive: Seq<u8>, before: Seq<u8>)
    requires
        m.wf(),
        drive.len() == m.size,
        none_empty(m.extents),
        countable(m),
        m.extents.len() <= usize::MAX,
        is_image(v, m, drive),
        v.len() <= u64::MAX,
        vstd::utf8::encode_utf8(map_text(m, MAGIC_V2@)).len() <= MAP_MAX,
        parts_contents(parts_of(m), drive).len() < MAX_FRAMES,
        end_of(m.extents) <= before.len(),
    ensures
        restored(v) matches Ok(p) && all_on(p, before.len() as int) && p.len() == total(m.extents) && laid(before, p).len()
            == before.len() && forall|i: int|
            0 <= i < before.len() ==> #[trigger] laid(before, p)[i] == (if any_holds(m.extents, i) {
                drive[i]
            } else {
                before[i]
            }),
{
    law_restore_gives_back(v, m, drive);
    law_restored_drive(m, drive, before);
}

// ---- What comes back ----------------------------------------------------------------------

/// Two contents that are the same where the map has something put the same bytes.
proof fn lemma_same_used(extents: Seq<Extent>, pos: int, a: Seq<u8>, b: Seq<u8>)
    requires
        a.len() == b.len(),
        forall|i: int| 0 <= i < a.len() && any_holds(extents, pos + i) ==> #[trigger] a[i] == b[i],
    ensures
        used_bytes(extents, pos, a) == used_bytes(extents, pos, b),
    decreases a.len(),
{
    if a.len() > 0 {
        let (x, y) = (a.drop_last(), b.drop_last());
        assert forall|i: int| 0 <= i < x.len() && any_holds(extents, pos + i) implies #[trigger] x[i] == y[i] by {
            assert(a[i] == b[i]);
        }
        lemma_same_used(extents, pos, x, y);
        if any_holds(extents, pos + a.len() - 1) {
            assert(a[a.len() - 1] == b[b.len() - 1]);
        }
    }
}

/// A frame that is passed over holds nothing that belongs on the drive.
proof fn lemma_unwanted(m: Parts, f: Frame, pos: int, c: Seq<u8>)
    requires
        m.wf(),
        0 <= pos,
        c.len() == f.len,
        !wanted(m, f, pos),
    ensures
        used_bytes(m.extents, pos, c) == Seq::<(int, u8)>::empty(),
{
    if f.len > 0 {
        law_runs_follow_the_map(m.extents, m.size as int, pos, f.len as int);
        lemma_used_run(m.extents, pos, c, 0, false);
        assert(c.take(0) == Seq::<u8>::empty());
        assert(Seq::<(int, u8)>::empty() + Seq::<(int, u8)>::empty() == Seq::<(int, u8)>::empty());
    }
}

/// Where the frames and the contents of some that were written stand among all of them.
proof fn lemma_done_at(done: Seq<Done>, k: int)
    requires
        0 <= k < done.len(),
    ensures
        ({
            let (at, pos) = (frames_of(done.take(k)).len() as int, contents_of(done.take(k)).len() as int);
            let d = done[k];
            &&& frames_of(done.take(k + 1)) == frames_of(done.take(k)) + d.frame
            &&& contents_of(done.take(k + 1)) == contents_of(done.take(k)) + d.content
            &&& at + d.frame.len() <= frames_of(done).len()
            &&& frames_of(done).subrange(at, at + d.frame.len()) == d.frame
            &&& pos + d.content.len() <= contents_of(done).len()
            &&& contents_of(done).subrange(pos, pos + d.content.len()) == d.content
        }),
    decreases done.len(),
{
    assert(done.take(k + 1).drop_last() == done.take(k));
    let rest = done.drop_last();
    if k == rest.len() {
        assert(done.take(k) == rest);
        assert(done.take(k + 1) == done);
        let (at, pos) = (frames_of(rest).len() as int, contents_of(rest).len() as int);
        assert(frames_of(done).subrange(at, at + done[k].frame.len()) == done[k].frame);
        assert(contents_of(done).subrange(pos, pos + done[k].content.len()) == done[k].content);
    } else {
        lemma_done_at(rest, k);
        assert(rest.take(k) == done.take(k));
        assert(rest.take(k + 1) == done.take(k + 1));
        let (at, pos) = (frames_of(done.take(k)).len() as int, contents_of(done.take(k)).len() as int);
        let (f, c) = (done[k].frame, done[k].content);
        assert(frames_of(done).subrange(at, at + f.len()) == frames_of(rest).subrange(at, at + f.len()));
        assert(contents_of(done).subrange(pos, pos + c.len()) == contents_of(rest).subrange(pos, pos + c.len()));
    }
}

/// From the frame of number `k` on, an image puts the rest of what its frames hold.
proof fn lemma_rest_put(m: Parts, done: Seq<Done>, image: Seq<u8>, head: Seq<u8>, tail: Seq<u8>, k: int)
    requires
        m.wf(),
        all_decode(done),
        image == head + frames_of(done) + tail,
        0 <= k <= done.len(),
    ensures
        ({
            let (at, pos) = (frames_of(done.take(k)).len() as int, contents_of(done.take(k)).len() as int);
            &&& pos <= contents_of(done).len()
            &&& frames_put(m, done.skip(k).map_values(|d: Done| listing(d)), image, head.len() + at, pos) == Ok::<
                Seq<(int, u8)>,
                Seq<char>,
            >(used_bytes(m.extents, pos, contents_of(done).skip(pos)))
        }),
    decreases done.len() - k,
{
    let (at, pos) = (frames_of(done.take(k)).len() as int, contents_of(done.take(k)).len() as int);
    let list = done.skip(k).map_values(|d: Done| listing(d));
    let all = contents_of(done);
    if k == done.len() {
        assert(done.take(k) == done);
        assert(all.skip(pos) == Seq::<u8>::empty());
        assert(list == Seq::<Frame>::empty());
    } else {
        let d = done[k];
        let f = listing(d);
        lemma_done_at(done, k);
        lemma_rest_put(m, done, image, head, tail, k + 1);
        assert(list[0] == f);
        assert(list.skip(1) == done.skip(k + 1).map_values(|d: Done| listing(d)));
        assert(f.packed == d.frame.len() && f.len == d.content.len());
        assert(image.subrange(head.len() + at, head.len() + at + f.packed) == d.frame) by {
            assert(image.subrange(head.len() + at, head.len() + at + f.packed) == frames_of(done).subrange(
                at,
                at + d.frame.len(),
            ));
        }
        let rest = all.skip(pos + f.len);
        assert(all.skip(pos) == d.content + rest);
        law_used_bytes_in_parts(m.extents, pos, d.content, rest);
        if !wanted(m, f, pos) {
            lemma_unwanted(m, f, pos, d.content);
            let u = used_bytes(m.extents, pos + f.len, rest);
            assert(Seq::<(int, u8)>::empty() + u == u);
        }
    }
}

/// What a smart image was made of comes back: a restore of the image of a drive puts every
/// used byte of the drive in its place, and nothing else. (The seek table of an image lists
/// no more frames than a reader takes.)
pub proof fn law_restore_gives_back(v: Seq<u8>, m: Parts, drive: Seq<u8>)
    requires
        m.wf(),
        drive.len() == m.size,
        none_empty(m.extents),
        countable(m),
        m.extents.len() <= usize::MAX,
        is_image(v, m, drive),
        v.len() <= u64::MAX,
        vstd::utf8::encode_utf8(map_text(m, MAGIC_V2@)).len() <= MAP_MAX,
        parts_contents(parts_of(m), drive).len() < MAX_FRAMES,
    ensures
        frame_map(v) == Some(m),
        restored(v) == Ok::<Seq<(int, u8)>, Seq<char>>(used_bytes(m.extents, 0, drive)),
{
    law_image_reads_back(v, m, drive);
    let done = choose|done: Seq<Done>|
        #[trigger] reads_back(v, m, drive, done) && held(done) == parts_contents(parts_of(m), drive);
    let head = map_frame_of(m);
    let frames = table_for(head.len(), done);
    assert(done.len() == held(done).len());
    assert(frames.len() == 1 + done.len());
    lemma_image_table(v, m, drive, done);
    lemma_no_fault(m, head.len(), done);
    lemma_all_put(m, done, v, head, seek_table_of(frames), drive);
}

/// The smart image of a drive is known as one: the map tells the drive's size and how much of
/// it is used, and a restore writes just that.
pub proof fn law_image_is_smart(v: Seq<u8>, m: Parts, drive: Seq<u8>, zip: Option<u64>, cpus: u64)
    requires
        m.wf(),
        drive.len() == m.size,
        none_empty(m.extents),
        countable(m),
        m.extents.len() <= usize::MAX,
        is_image(v, m, drive),
        v.len() <= u64::MAX,
        vstd::utf8::encode_utf8(map_text(m, MAGIC_V2@)).len() <= MAP_MAX,
    ensures
        learned(v, zip).map == Some(m),
        learned(v, zip).info == (ImageInfo {
            format: ImageFormat::Zstd,
            size: v.len() as u64,
            uncompressed: Some(m.size),
            smart: Some(SmartInfo { disk_size: m.size, used: total(m.extents) as u64 }),
        }),
        way_of(learned(v, zip), cpus) == Way::Smart,
{
    law_image_reads_back(v, m, drive);
    let done = choose|done: Seq<Done>|
        #[trigger] reads_back(v, m, drive, done) && held(done) == parts_contents(parts_of(m), drive);
    lemma_image_start(v, m, done);
    lemma_starts_as_zstd(v);
    assert(frame_map(v) == Some(m)) by {
        lemma_image_map(v, m, drive, done);
    }
}

proof fn lemma_image_map(v: Seq<u8>, m: Parts, drive: Seq<u8>, done: Seq<Done>)
    requires
        reads_back(v, m, drive, done),
    ensures
        frame_map(v) == Some(m),
{
    assert(v.len() >= map_frame_of(m).len());
}

proof fn lemma_image_start(v: Seq<u8>, m: Parts, done: Seq<Done>)
    requires
        made_of(v, m, done),
    ensures
        v.len() >= 8,
        v.take(4) == le32_bytes(MAP_FRAME),
{
    assert(map_frame_of(m).len() >= 8);
    assert(map_frame_of(m).take(4) == le32_bytes(MAP_FRAME));
    assert(v.take(4) == map_frame_of(m).take(4));
}

proof fn lemma_starts_as_zstd(v: Seq<u8>)
    requires
        v.len() >= 8,
        v.take(4) == le32_bytes(MAP_FRAME),
    ensures
        format_in(start_of(v, 6)) == ImageFormat::Zstd,
{
    let head = start_of(v, 6);
    assert(le32_bytes(MAP_FRAME) == seq![0x5du8, 0x2a, 0x4d, 0x18]);
    assert(v.take(4)[0] == v[0] && v.take(4)[1] == v[1] && v.take(4)[2] == v[2] && v.take(4)[3] == v[3]);
    assert(head[0] == 0x5d && head[1] == 0x2a && head[2] == 0x4d && head[3] == 0x18);
    assert(SKIPPABLE@ =~= seq![0x2au8, 0x4d, 0x18]);
    assert(head.subrange(1, 4) =~= SKIPPABLE@);
    if holds(head, 0, seq![0x1fu8, 0x8b]) {
        assert(head.subrange(0, 2)[0] == head[0]);
    }
    assert(XZ_MAGIC@[0] == 0xfd);
    if holds(head, 0, XZ_MAGIC@) {
        assert(head.subrange(0, 6)[0] == head[0]);
    }
}

/// The seek table of an image, and its map.
proof fn lemma_image_table(v: Seq<u8>, m: Parts, drive: Seq<u8>, done: Seq<Done>)
    requires
        reads_back(v, m, drive, done),
        table_for(map_frame_of(m).len(), done).len() <= MAX_FRAMES,
        v.len() <= u64::MAX,
    ensures
        frame_map(v) == Some(m),
        announced(v) matches Some(len) && 8 + len == map_frame_of(m).len(),
        table_in(v) == Ok::<(Seq<Frame>, u64), Fault>(
            (table_for(map_frame_of(m).len(), done), (map_frame_of(m).len() + frames_of(done).len()) as u64),
        ),
        map_frame_of(m).len() + frames_of(done).len() <= v.len(),
{
    assert(v.len() >= map_frame_of(m).len());
}

proof fn lemma_no_fault(m: Parts, head: nat, done: Seq<Done>)
    requires
        all_decode(done),
        head <= u32::MAX,
        packed_sum(table_for(head, done)) == head + frames_of(done).len(),
        len_sum(table_for(head, done)) == m.size,
    ensures
        table_fault(m, table_for(head, done), head as int, (head + frames_of(done).len()) as int) is None,
{
    let frames = table_for(head, done);
    assert forall|i: int| 0 <= i < frames.len() implies (#[trigger] frames[i]).len <= ZEROS_MAX by {
        if i > 0 {
            assert(frames[i] == listing(done[i - 1]));
        }
    }
}

/// All frames of an image put the used bytes of the drive.
proof fn lemma_all_put(m: Parts, done: Seq<Done>, image: Seq<u8>, head: Seq<u8>, tail: Seq<u8>, drive: Seq<u8>)
    requires
        m.wf(),
        all_decode(done),
        image == head + frames_of(done) + tail,
        head.len() <= u32::MAX,
        contents_of(done) == used_only(drive, m.extents),
    ensures
        frames_put(m, table_for(head.len(), done), image, 0, 0) == Ok::<Seq<(int, u8)>, Seq<char>>(
            used_bytes(m.extents, 0, drive),
        ),
{
    let frames = table_for(head.len(), done);
    lemma_rest_put(m, done, image, head, tail, 0);
    assert(done.take(0) == Seq::<Done>::empty());
    assert(done.skip(0) == done);
    assert(frames.skip(1) == done.map_values(|d: Done| listing(d)));
    let all = contents_of(done);
    assert(all.skip(0) == all);
    assert(!wanted(m, frames[0], 0));
    assert(frames_put(m, frames, image, 0, 0) == frames_put(m, frames.skip(1), image, head.len() as int, 0));
    assert forall|i: int| 0 <= i < all.len() && any_holds(m.extents, 0 + i) implies #[trigger] all[i] == drive[i] by {}
    lemma_same_used(m.extents, 0, all, drive);
}

/// As many bytes are put as the map has: those that progress counts toward.
pub proof fn law_used_bytes_count(m: Parts, drive: Seq<u8>)
    requires
        m.wf(),
        drive.len() == m.size,
    ensures
        used_bytes(m.extents, 0, drive).len() == total(m.extents),
{
    let n = m.extents.len() as int;
    lemma_count(m, drive, n);
    assert(m.extents.take(n) == m.extents);
    let end = end_of(m.extents);
    assert forall|p: int| end <= p < drive.len() implies !any_holds(m.extents, p) by {
        lemma_between(m.extents, m.size as int, n, p);
    }
    lemma_used_run(m.extents, 0, drive, end, false);
}

/// What lies past the extents before one, and before that one, is free.
proof fn lemma_between(extents: Seq<Extent>, size: int, k: int, p: int)
    requires
        in_order(extents, size),
        0 <= k <= extents.len(),
        end_of(extents.take(k)) <= p,
        k < extents.len() ==> p < extents[k].start,
    ensures
        !any_holds(extents, p),
{
    if any_holds(extents, p) {
        let j = choose|j: int| 0 <= j < extents.len() && (#[trigger] extents[j]).holds(p);
        if j < k {
            assert(extents.take(k).last() == extents[k - 1]);
            if j < k - 1 {
                assert(extents[j].end() <= extents[k - 1].start);
            }
        } else if j > k {
            assert(extents[k].end() <= extents[j].start);
        }
        assert(false);
    }
}

proof fn lemma_count(m: Parts, drive: Seq<u8>, k: int)
    requires
        m.wf(),
        drive.len() == m.size,
        0 <= k <= m.extents.len(),
    ensures
        0 <= end_of(m.extents.take(k)) <= m.size,
        used_bytes(m.extents, 0, drive.take(end_of(m.extents.take(k)))).len() == total(m.extents.take(k)),
    decreases k,
{
    let ex = m.extents;
    if k == 0 {
        assert(ex.take(0) == Seq::<Extent>::empty());
        assert(drive.take(0) == Seq::<u8>::empty());
    } else {
        lemma_count(m, drive, k - 1);
        let e = ex[k - 1];
        let pos = end_of(ex.take(k - 1));
        assert(e.end() <= m.size);
        assert(ex.take(k).drop_last() == ex.take(k - 1));
        assert(ex.take(k).last() == e);
        if k >= 2 {
            assert(ex.take(k - 1).last() == ex[k - 2]);
            assert(ex[k - 2].end() <= ex[k - 1].start);
        }
        let data = drive.take(e.end());
        let gap = drive.take(e.start as int);
        assert forall|p: int| pos <= p < e.start implies !any_holds(ex, p) by {
            lemma_between(ex, m.size as int, k - 1, p);
        }
        lemma_used_run(ex, 0, gap, pos, false);
        assert(gap.take(pos) == drive.take(pos));
        assert forall|p: int| e.start <= p < e.end() implies any_holds(ex, p) by {
            assert(ex[k - 1].holds(p));
        }
        lemma_used_run(ex, 0, data, e.start as int, true);
        assert(data.take(e.start as int) == gap);
    }
}

} // verus!
