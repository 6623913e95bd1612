//! The copy engine: smart copies (only the used blocks), smart images, and images of many
//! formats.

pub mod args;
pub mod copy;
pub mod disk;
pub mod formats;
pub mod frames;
pub mod image;
pub mod progress;
pub mod restore;
pub mod unpack;

use vstd::prelude::*;
use vstd::string::*;
use crate::smart::{any_holds, in_order, none_empty, Extent};
use crate::text::{chars, part, rfind, rfind_text, string};

verus! {

#[derive(Clone, Copy, Debug, PartialEq, Eq, Structural)]
pub enum ImageFormat {
    Raw,
    Gzip,
    Xz,
    Zstd,
    Zip,
    Bzip2,
    Lz4,
    /// Legacy .lzma ("LZMA alone")
    Lzma,
    /// 7-Zip archive: its first file
    SevenZ,
    /// tar archive: its first file (inside any of the compressions above too)
    Tar,
    /// Apple disk image (UDIF)
    Dmg,
    Vhd,
    Vhdx,
    Vmdk,
    Qcow2,
}

/// What a smart image records about the drive it came from.
#[derive(Clone, Copy, Debug, PartialEq, Eq, Structural)]
pub struct SmartInfo {
    pub disk_size: u64,
    /// Bytes holding data (what a restore writes).
    pub used: u64,
}

#[derive(Clone, Copy, Debug, PartialEq, Eq, Structural)]
pub struct ImageInfo {
    pub format: ImageFormat,
    /// Size of the file itself.
    pub size: u64,
    /// Size once decompressed, when the format tells.
    pub uncompressed: Option<u64>,
    pub smart: Option<SmartInfo>,
}

/// An error's text without the number of the operating system.
pub open spec fn plain_words(text: Seq<char>) -> Seq<char> {
    match rfind(text, " (os error "@) {
        Some(at) => text.take(at),
        None => text,
    }
}

/// An I/O error in plain words: "No space left on device", without "(os error 28)".
pub fn why(error: &str) -> (s: String)
    ensures
        s@ == plain_words(error@),
{
    let v: Vec<char> = chars(error);
    match rfind_text(&v, " (os error ") {
        Some(at) => {
            let head: Vec<char> = part(&v, 0, at);
            assert(head@ == error@.take(at as int));
            string(&head)
        },
        None => error.to_owned(),
    }
}

/// Sorted, and with something between any two of them.
pub open spec fn apart(extents: Seq<Extent>) -> bool {
    forall|i: int, j: int|
        0 <= i < j < extents.len() ==> (#[trigger] extents[i]).end() < (#[trigger] extents[j]).start
}

pub open spec fn by_start(extents: Seq<Extent>) -> bool {
    forall|i: int, j: int|
        0 <= i < j < extents.len() ==> (#[trigger] extents[i]).start <= (#[trigger] extents[j]).start
}

proof fn lemma_insert_holds(v: Seq<Extent>, at: int, e: Extent, pos: int)
    requires
        0 <= at <= v.len(),
    ensures
        any_holds(v.insert(at, e), pos) == (any_holds(v, pos) || e.holds(pos)),
{
    let w = v.insert(at, e);
    if any_holds(w, pos) {
        let i = choose|i: int| 0 <= i < w.len() && (#[trigger] w[i]).holds(pos);
        if i < at {
            assert(v[i].holds(pos));
        } else if i > at {
            assert(v[i - 1].holds(pos));
        }
    }
    if any_holds(v, pos) {
        let i = choose|i: int| 0 <= i < v.len() && (#[trigger] v[i]).holds(pos);
        if i < at {
            assert(w[i].holds(pos));
        } else {
            assert(w[i + 1].holds(pos));
        }
    }
    if e.holds(pos) {
        assert(w[at].holds(pos));
    }
}

/// Some extents in order of their starts, within the drive and without empty ones.
fn sorted(extents: &[Extent], size: u64) -> (v: Vec<Extent>)
    ensures
        by_start(v@),
        none_empty(v@),
        forall|i: int| 0 <= i < v@.len() ==> (#[trigger] v@[i]).end() <= size,
        forall|pos: int| #[trigger] any_holds(v@, pos) == (any_holds(extents@, pos) && pos < size),
{
    let mut v: Vec<Extent> = Vec::new();
    let mut i: usize = 0;
    while i < extents.len()
        invariant
            i <= extents.len(),
            by_start(v@),
            none_empty(v@),
            forall|i: int| 0 <= i < v@.len() ==> (#[trigger] v@[i]).end() <= size,
            forall|pos: int| #[trigger] any_holds(v@, pos) == (any_holds(extents@.take(i as int), pos) && pos < size),
        decreases extents.len() - i,
    {
        let e: Extent = extents[i];
        let len: u64 = if e.start >= size {
            0
        } else if e.len <= size - e.start {
            e.len
        } else {
            size - e.start
        };
        let c: Extent = Extent { start: e.start, len };
        let ghost before = v@;
        proof {
            assert forall|pos: int| #[trigger] any_holds(extents@.take(i + 1), pos) == (any_holds(extents@.take(i as int), pos)
                || e.holds(pos)) by {
                let t = extents@.take(i as int);
                assert(extents@.take(i + 1) == t.insert(i as int, e));
                lemma_insert_holds(t, i as int, e, pos);
            }
        }
        if len > 0 {
            // What comes sorted stays where it is.
            let mut at: usize = v.len();
            while at > 0 && v[at - 1].start > c.start
                invariant
                    at <= v@.len(),
                    v@ == before,
                    by_start(v@),
                    forall|k: int| at <= k < v@.len() ==> (#[trigger] v@[k]).start > c.start,
                decreases at,
            {
                at = at - 1;
            }
            v.insert(at, c);
            proof {
                assert forall|pos: int| #[trigger] any_holds(v@, pos) == (any_holds(extents@.take(i + 1), pos) && pos
                    < size) by {
                    lemma_insert_holds(before, at as int, c, pos);
                    assert(c.holds(pos) == (e.holds(pos) && pos < size));
                    assert(any_holds(extents@.take(i + 1), pos) == (any_holds(extents@.take(i as int), pos) || e.holds(pos)));
                    assert(any_holds(before, pos) == (any_holds(extents@.take(i as int), pos) && pos < size));
                }
                assert forall|a: int, b: int| 0 <= a < b < v@.len() implies (#[trigger] v@[a]).start <= (
                #[trigger] v@[b]).start by {
                    if at > 0 {
                        assert(before[at - 1].start <= c.start);
                    }
                    let x = if a < at {
                        before[a]
                    } else if a == at {
                        c
                    } else {
                        before[a - 1]
                    };
                    assert(x == v@[a]);
                }
            }
        } else {
            proof {
                assert forall|pos: int| #[trigger] any_holds(v@, pos) == (any_holds(extents@.take(i + 1), pos) && pos
                    < size) by {
                    assert(any_holds(before, pos) == (any_holds(extents@.take(i as int), pos) && pos < size));
                }
            }
        }
        i = i + 1;
    }
    proof { assert(extents@.take(extents@.len() as int) == extents@); }
    v
}

/// The extents to copy: sorted, merged and within the drive. (The analysis promises that
/// already; this just makes sure.)
pub fn tidy(extents: &[Extent], size: u64) -> (merged: Vec<Extent>)
    ensures
        apart(merged@),
        none_empty(merged@),
        in_order(merged@, size as int),
        forall|pos: int| #[trigger] any_holds(merged@, pos) == (any_holds(extents@, pos) && pos < size),
{
    let v: Vec<Extent> = sorted(extents, size);
    let mut merged: Vec<Extent> = Vec::new();
    let mut i: usize = 0;
    while i < v.len()
        invariant
            i <= v@.len(),
            by_start(v@),
            none_empty(v@),
            forall|i: int| 0 <= i < v@.len() ==> (#[trigger] v@[i]).end() <= size,
            apart(merged@),
            none_empty(merged@),
            in_order(merged@, size as int),
            merged@.len() > 0 ==> i > 0 && merged@.last().start <= v@[i - 1].start,
            merged@.len() == 0 ==> i == 0,
            forall|pos: int| #[trigger] any_holds(merged@, pos) == any_holds(v@.take(i as int), pos),
        decreases v@.len() - i,
    {
        let e: Extent = v[i];
        let n: usize = merged.len();
        let ghost before = merged@;
        proof {
            assert(v@[i as int].end() <= size);
            assert(v@[i as int].len > 0);
            assert forall|pos: int| any_holds(v@.take(i + 1), pos) == (any_holds(v@.take(i as int), pos) || e.holds(pos)) by {
                let t = v@.take(i as int);
                assert(v@.take(i + 1) == t.insert(i as int, e));
                lemma_insert_holds(t, i as int, e, pos);
            }
        }
        if n > 0 && e.start <= merged[n - 1].start + merged[n - 1].len {
            let last: Extent = merged[n - 1];
            let reach: u64 = e.start + e.len - last.start;
            let len: u64 = if last.len >= reach {
                last.len
            } else {
                reach
            };
            merged.set(n - 1, Extent { start: last.start, len });
            proof {
                let grown = Extent { start: last.start, len };
                assert(merged@ == before.update(n - 1, grown));
                assert forall|pos: int| #[trigger] any_holds(merged@, pos) == any_holds(v@.take(i + 1), pos) by {
                    assert(any_holds(before, pos) == any_holds(v@.take(i as int), pos));
                    if any_holds(merged@, pos) {
                        let k = choose|k: int| 0 <= k < merged@.len() && (#[trigger] merged@[k]).holds(pos);
                        if k < n - 1 {
                            assert(before[k].holds(pos));
                        } else {
                            assert(last.holds(pos) || e.holds(pos));
                            if last.holds(pos) {
                                assert(before[n - 1].holds(pos));
                            }
                        }
                    }
                    if any_holds(before, pos) {
                        let k = choose|k: int| 0 <= k < before.len() && (#[trigger] before[k]).holds(pos);
                        if k < n - 1 {
                            assert(merged@[k].holds(pos));
                        } else {
                            assert(merged@[n - 1].holds(pos));
                        }
                    }
                    if e.holds(pos) {
                        assert(merged@[n - 1].holds(pos));
                    }
                }
            }
        } else {
            merged.push(e);
            proof {
                assert(merged@ == before.insert(n as int, e));
                assert forall|pos: int| #[trigger] any_holds(merged@, pos) == any_holds(v@.take(i + 1), pos) by {
                    lemma_insert_holds(before, n as int, e, pos);
                    assert(any_holds(before, pos) == any_holds(v@.take(i as int), pos));
                }
                assert forall|a: int, b: int| 0 <= a < b < merged@.len() implies (#[trigger] merged@[a]).end() < (
                #[trigger] merged@[b]).start by {
                    if b == n && a < n - 1 {
                        assert(before[a].end() < before[n - 1].start);
                    }
                }
            }
        }
        i = i + 1;
    }
    proof { assert(v@.take(v@.len() as int) == v@); }
    merged
}

/// Extents that are sorted, apart, not empty and within the drive are tidy: no others hold
/// the same bytes.
pub proof fn law_tidy_is_unique(a: Seq<Extent>, b: Seq<Extent>)
    requires
        apart(a),
        apart(b),
        none_empty(a),
        none_empty(b),
        forall|pos: int| any_holds(a, pos) == any_holds(b, pos),
    ensures
        a == b,
    decreases a.len(),
{
    if a.len() == 0 {
        if b.len() > 0 {
            assert(b[0].holds(b[0].start as int));
            assert(any_holds(b, b[0].start as int));
        }
        assert(a == b);
    } else {
        assert(a[0].holds(a[0].start as int));
        assert(any_holds(b, a[0].start as int));
        lemma_same_first(a, b);
        lemma_same_first(b, a);
        assert(a[0].start == b[0].start);
        lemma_same_end(a, b);
        lemma_same_end(b, a);
        assert(a[0] == b[0]);
        let (c, d) = (a.skip(1), b.skip(1));
        assert forall|pos: int| any_holds(c, pos) == any_holds(d, pos) by {
            lemma_rest_holds(a, pos);
            lemma_rest_holds(b, pos);
            assert(any_holds(a, pos) == any_holds(b, pos));
        }
        law_tidy_is_unique(c, d);
        assert(a == seq![a[0]] + c);
        assert(b == seq![b[0]] + d);
    }
}

proof fn lemma_same_first(a: Seq<Extent>, b: Seq<Extent>)
    requires
        apart(a),
        apart(b),
        none_empty(a),
        none_empty(b),
        a.len() > 0,
        forall|pos: int| any_holds(a, pos) == any_holds(b, pos),
    ensures
        b.len() > 0,
        b[0].start <= a[0].start,
{
    let p = a[0].start as int;
    assert(a[0].holds(p));
    assert(any_holds(b, p));
    let j = choose|j: int| 0 <= j < b.len() && (#[trigger] b[j]).holds(p);
    if j > 0 {
        assert(b[0].end() < b[j].start);
    }
}

proof fn lemma_same_end(a: Seq<Extent>, b: Seq<Extent>)
    requires
        apart(a),
        apart(b),
        none_empty(a),
        none_empty(b),
        a.len() > 0,
        b.len() > 0,
        a[0].start == b[0].start,
        forall|pos: int| any_holds(a, pos) == any_holds(b, pos),
    ensures
        a[0].end() <= b[0].end(),
{
    if a[0].end() > b[0].end() {
        let p = b[0].end();
        assert(a[0].holds(p));
        assert(any_holds(b, p));
        let j = choose|j: int| 0 <= j < b.len() && (#[trigger] b[j]).holds(p);
        if j > 0 {
            assert(b[0].end() < b[j].start);
        }
    }
}

proof fn lemma_rest_holds(a: Seq<Extent>, pos: int)
    requires
        apart(a),
        none_empty(a),
        a.len() > 0,
    ensures
        any_holds(a.skip(1), pos) == (any_holds(a, pos) && !a[0].holds(pos)),
{
    let c = a.skip(1);
    if any_holds(c, pos) {
        let j = choose|j: int| 0 <= j < c.len() && (#[trigger] c[j]).holds(pos);
        assert(a[j + 1].holds(pos));
        assert(a[0].end() < a[j + 1].start);
    }
    if any_holds(a, pos) && !a[0].holds(pos) {
        let j = choose|j: int| 0 <= j < a.len() && (#[trigger] a[j]).holds(pos);
        assert(c[j - 1].holds(pos));
    }
}

} // verus!
