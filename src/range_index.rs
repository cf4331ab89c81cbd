//! The immutable spatial index over a slot's annotation ranges.

use rstar::primitives::{GeomWithData, Line};
use rstar::{RTree, AABB};
use vstd::multiset::Multiset;
use vstd::prelude::*;

use crate::geometry::{View1D, MAX_COORD};

verus! {

/// One indexed annotation range: `(start, end, annotation id)`, half-open.
pub type IndexEntry = (i64, i64, usize);

/// An r-tree of annotation ranges, laid on the x axis of the plane.
#[verifier::external_body]
pub struct RangeIndex {
    tree: RTree<GeomWithData<Line<(i64, i64)>, usize>>,
}

/// The entries an index holds.
pub uninterp spec fn index_entries(t: RangeIndex) -> Multiset<IndexEntry>;

pub open spec fn entry_wf(e: IndexEntry) -> bool {
    0 <= e.0 < e.1 <= MAX_COORD
}

/// Entry `e` touches the closed window `[lo, hi]`.
pub open spec fn touches(e: IndexEntry, lo: int, hi: int) -> bool {
    e.0 <= hi && lo <= e.1
}

/// Relies on rstar's `RTree::bulk_load`: the tree holds exactly the given
/// elements, each a segment from `(start, 0)` to `(end, 0)` tagged with its id.
/// Coordinates up to `MAX_COORD` keep the envelope centres that the bulk
/// load computes, `(lower + upper) / 2`, within `i64`.
#[verifier::external_body]
fn bulk_load(items: Vec<IndexEntry>) -> (t: RangeIndex)
    requires
        forall|i: int| 0 <= i < items@.len() ==> entry_wf(#[trigger] items@[i]),
    ensures
        index_entries(t) == items@.to_multiset(),
{
    let elems = items.into_iter().map(|(l, r, id)| GeomWithData::new(Line::new((l, 0), (r, 0)), id));
    RangeIndex { tree: RTree::bulk_load(elems.collect()) }
}

/// Relies on rstar's `RTree::locate_in_envelope_intersecting` with the box
/// from `(lo, 0)` to `(hi, 0)`: every element whose envelope intersects the
/// box (closed on both sides) comes once.
#[verifier::external_body]
fn locate_touching(t: &RangeIndex, lo: i64, hi: i64) -> (r: Vec<IndexEntry>)
    requires
        lo <= hi,
    ensures
        forall|e: IndexEntry| #[trigger] r@.to_multiset().count(e) == if touches(e, lo as int, hi as int) {
            index_entries(*t).count(e)
        } else {
            0
        },
{
    let found = t.tree.locate_in_envelope_intersecting(AABB::from_corners((lo, 0), (hi, 0)));
    found.map(|g| (g.geom().from.0, g.geom().to.0, g.data)).collect()
}

impl RangeIndex {
    /// Every entry of the index is well formed.
    pub open spec fn wf(self) -> bool {
        forall|e: IndexEntry| #[trigger] index_entries(self).count(e) > 0 ==> entry_wf(e)
    }

    /// Builds the index over `items`.
    pub fn new(items: Vec<IndexEntry>) -> (t: RangeIndex)
        requires
            forall|i: int| 0 <= i < items@.len() ==> entry_wf(#[trigger] items@[i]),
        ensures
            index_entries(t) == items@.to_multiset(),
            t.wf(),
    {
        let ghost s = items@;
        let t = bulk_load(items);
        proof {
            assert forall|e: IndexEntry| #[trigger] index_entries(t).count(e) > 0 implies entry_wf(e) by {
                s.to_multiset_ensures();
                assert(s.contains(e));
            }
        }
        t
    }

    /// The entries whose ranges meet the closed window `[view.start, view.end]`;
    /// each comes as often as the index holds it, in no particular order.
    pub fn query(&self, view: View1D) -> (r: Vec<IndexEntry>)
        requires
            view.wf(),
        ensures
            forall|e: IndexEntry| #[trigger] r@.to_multiset().count(e) == if touches(e, view.start as int, view.end as int) {
                index_entries(*self).count(e)
            } else {
                0
            },
    {
        locate_touching(self, view.start as i64, view.end as i64)
    }
}

} // verus!
