//! Keeping reference occurrences in the order of their offsets.

use vstd::prelude::*;
use crate::text::Span;

verus! {

/// One place in a document where a reference target stands.
#[derive(Clone, Copy, Debug, PartialEq, Eq)]
pub struct Occurrence {
    /// The line that holds the target, counted from 1.
    pub line_no: usize,
    /// The bytes of the target in the document, without the syntax around it.
    pub span: Span,
}

/// The occurrences begin at ascending offsets.
pub open spec fn ascending(occs: Seq<Occurrence>) -> bool {
    forall|i: int, j: int| 0 <= i < j < occs.len() ==> occs[i].span.start <= occs[j].span.start
}

/// Where an occurrence that begins at `start` enters `occs`: behind the last
/// one that begins at or before `start`.
pub open spec fn insert_point(occs: Seq<Occurrence>, start: usize) -> int
    decreases occs.len(),
{
    if occs.len() == 0 || occs.last().span.start <= start {
        occs.len() as int
    } else {
        insert_point(occs.drop_last(), start)
    }
}

/// `occs` with `occ` put in at its insert point.
pub open spec fn placed(occs: Seq<Occurrence>, occ: Occurrence) -> Seq<Occurrence> {
    occs.insert(insert_point(occs, occ.span.start), occ)
}

/// The occurrences in ascending order of their beginnings; those that begin
/// at the same offset keep the order they came in.
pub open spec fn sort_by_start(occs: Seq<Occurrence>) -> Seq<Occurrence>
    decreases occs.len(),
{
    if occs.len() == 0 {
        occs
    } else {
        placed(sort_by_start(occs.drop_last()), occs.last())
    }
}

/// The insert point splits an ascending sequence: before it every
/// occurrence begins at or before `start`, from it on every one begins later.
pub proof fn lemma_insert_point(occs: Seq<Occurrence>, start: usize)
    requires
        ascending(occs),
    ensures
        0 <= insert_point(occs, start) <= occs.len(),
        forall|i: int| 0 <= i < insert_point(occs, start) ==> occs[i].span.start <= start,
        forall|i: int| insert_point(occs, start) <= i < occs.len() ==> occs[i].span.start > start,
    decreases occs.len(),
{
    let at = insert_point(occs, start);
    if occs.len() != 0 && occs.last().span.start > start {
        let rest = occs.drop_last();
        assert forall|i: int, j: int| 0 <= i < j < rest.len() implies rest[i].span.start
            <= rest[j].span.start by {
            assert(rest[i] == occs[i] && rest[j] == occs[j]);
        }
        lemma_insert_point(rest, start);
        assert forall|i: int| 0 <= i < at implies occs[i].span.start <= start by {
            assert(rest[i] == occs[i]);
        }
        assert forall|i: int| at <= i < occs.len() implies occs[i].span.start > start by {
            if i < rest.len() {
                assert(rest[i] == occs[i]);
            }
        }
    } else {
        assert forall|i: int| 0 <= i < at implies occs[i].span.start <= start by {
            if i < occs.len() - 1 {
                assert(occs[i].span.start <= occs[occs.len() - 1].span.start);
            }
        }
    }
}

/// Placing an occurrence keeps an ascending sequence ascending and adds
/// exactly that occurrence.
pub proof fn lemma_placed(occs: Seq<Occurrence>, occ: Occurrence)
    requires
        ascending(occs),
    ensures
        ascending(placed(occs, occ)),
        placed(occs, occ).len() == occs.len() + 1,
        placed(occs, occ).to_multiset() == occs.to_multiset().insert(occ),
        forall|k: int|
            0 <= k < placed(occs, occ).len() ==> (#[trigger] placed(occs, occ)[k]) == occ
                || occs.contains(placed(occs, occ)[k]),
{
    broadcast use vstd::seq_lib::group_seq_properties;

    lemma_insert_point(occs, occ.span.start);
    let at = insert_point(occs, occ.span.start);
    let res = placed(occs, occ);
    occs.insert_ensures(at, occ);
    assert forall|i: int, j: int| 0 <= i < j < res.len() implies res[i].span.start
        <= res[j].span.start by {
        if i < at && j > at {
            assert(res[i] == occs[i]);
            assert(res[j] == occs[j - 1]);
        } else if i > at {
            assert(res[i] == occs[i - 1]);
            assert(res[j] == occs[j - 1]);
        }
    }
    assert forall|k: int| 0 <= k < res.len() implies (#[trigger] res[k]) == occ || occs.contains(
        res[k],
    ) by {
        if k < at {
            assert(res[k] == occs[k]);
        } else if k > at {
            assert(res[k] == occs[k - 1]);
        }
    }
    assert(res.remove(at) =~= occs);
    res.to_multiset_ensures();
    assert(res.to_multiset().remove(occ).insert(occ) =~= res.to_multiset());
}

/// Sorting yields an ascending sequence with the same occurrences.
pub proof fn lemma_sort_by_start(occs: Seq<Occurrence>)
    ensures
        ascending(sort_by_start(occs)),
        sort_by_start(occs).len() == occs.len(),
        sort_by_start(occs).to_multiset() == occs.to_multiset(),
    decreases occs.len(),
{
    if occs.len() != 0 {
        let rest = occs.drop_last();
        lemma_sort_by_start(rest);
        lemma_placed(sort_by_start(rest), occs.last());
        rest.to_multiset_ensures();
        assert(rest.push(occs.last()) =~= occs);
    }
}

/// Puts `occ` into `found` at its insert point.
pub fn place(found: &mut Vec<Occurrence>, occ: Occurrence)
    ensures
        final(found)@ == placed(old(found)@, occ),
{
    let ghost all = found@;
    let mut at: usize = found.len();
    proof {
        assert(all.take(all.len() as int) =~= all);
    }
    while at > 0 && found[at - 1].span.start > occ.span.start
        invariant
            found@ == all,
            at <= all.len(),
            insert_point(all, occ.span.start) == insert_point(all.take(at as int), occ.span.start),
        decreases at,
    {
        proof {
            assert(all.take(at as int).drop_last() =~= all.take(at - 1));
        }
        at = at - 1;
    }
    proof {
        assert(all.take(all.len() as int) =~= all);
        if at > 0 {
            assert(all.take(at as int).last() == all[at - 1]);
        }
        assert(insert_point(all, occ.span.start) == at);
    }
    found.insert(at, occ);
}

} // verus!
