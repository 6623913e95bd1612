//! Parts of a drive.

use vstd::prelude::*;

verus! {

/// A part of a drive: `len` bytes from `start`.
#[derive(Clone, Copy, Debug, PartialEq, Eq, Structural)]
pub struct Extent {
    pub start: u64,
    pub len: u64,
}

impl Extent {
    /// Where it ends.
    pub open spec fn end(self) -> int {
        self.start + self.len
    }

    pub open spec fn holds(self, pos: int) -> bool {
        self.start <= pos < self.end()
    }
}

/// Sorted, not overlapping, within `size`.
pub open spec fn in_order(extents: Seq<Extent>, size: int) -> bool {
    &&& forall|i: int| 0 <= i < extents.len() ==> (#[trigger] extents[i]).end() <= size
    &&& forall|i: int, j: int|
        0 <= i < j < extents.len() ==> (#[trigger] extents[i]).end() <= (#[trigger] extents[j]).start
}

/// None of them is empty.
pub open spec fn none_empty(extents: Seq<Extent>) -> bool {
    forall|i: int| 0 <= i < extents.len() ==> (#[trigger] extents[i]).len > 0
}

/// The bytes in all of them.
pub open spec fn total(extents: Seq<Extent>) -> nat
    decreases extents.len(),
{
    if extents.len() == 0 {
        0
    } else {
        total(extents.drop_last()) + extents.last().len as nat
    }
}

/// Where the last one ends.
pub open spec fn end_of(extents: Seq<Extent>) -> int {
    if extents.len() == 0 {
        0
    } else {
        extents.last().end()
    }
}

/// Does one of them hold `pos`?
pub open spec fn any_holds(extents: Seq<Extent>, pos: int) -> bool {
    exists|i: int| 0 <= i < extents.len() && (#[trigger] extents[i]).holds(pos)
}

/// What is in order holds no more than fits before its end.
pub proof fn lemma_total_fits(extents: Seq<Extent>, size: int)
    requires
        in_order(extents, size),
        0 <= size,
    ensures
        total(extents) <= end_of(extents) <= size,
    decreases extents.len(),
{
    if extents.len() > 0 {
        let rest = extents.drop_last();
        assert forall|i: int| 0 <= i < rest.len() implies (#[trigger] rest[i]).end() <= size by {
            assert(rest[i] == extents[i]);
        }
        lemma_total_fits(rest, size);
        if rest.len() > 0 {
            assert(rest.last() == extents[extents.len() - 2]);
        }
    }
}

/// Part of what is in order is in order, and holds no more.
pub proof fn lemma_total_take(extents: Seq<Extent>, n: int)
    requires
        0 <= n <= extents.len(),
    ensures
        total(extents.take(n)) <= total(extents),
    decreases extents.len() - n,
{
    if n < extents.len() {
        lemma_total_take(extents, n + 1);
        assert(extents.take(n + 1).drop_last() == extents.take(n));
    } else {
        assert(extents.take(n) == extents);
    }
}

} // verus!
