//! The layout state of a slot and the layout step that updates it each frame.

use rand::rngs::StdRng;
use vstd::prelude::*;

use crate::anchor::{chosen_target, covered, seeded_rng, select_target, spans_wf, total_len, Span};
use crate::geometry::{
    anchor_interval, anchor_of, lemma_anchor_ordered, overlaps_view, shift_x, shifted_x, ScreenSpan, View1D,
};
use crate::placement::{place_labels, placed, Candidate};
use crate::range_index::{entry_wf, index_entries, touches, IndexEntry, RangeIndex};

verus! {

/// Identifier of an annotation within its slot: its index in the slot's label table.
pub type AnnotationId = usize;

/// The screen span that index entry `h` contributes under `view` and `screen`.
pub open spec fn span_of(h: IndexEntry, view: View1D, screen: ScreenSpan) -> Span {
    let a = anchor_of(h.0 as int, h.1 as int, view, screen)->Some_0;
    (a.0 as i64, a.1 as i64)
}

/// The visible spans of annotation `id` among the query hits, in hit order.
pub open spec fn spans_for(hits: Seq<IndexEntry>, id: usize, view: View1D, screen: ScreenSpan) -> Seq<Span>
    decreases hits.len(),
{
    if hits.len() == 0 {
        Seq::empty()
    } else {
        let p = spans_for(hits.drop_last(), id, view, screen);
        let h = hits.last();
        if h.2 == id && overlaps_view(h.0 as int, h.1 as int, view) {
            p.push(span_of(h, view, screen))
        } else {
            p
        }
    }
}

pub open spec fn hits_wf(hits: Seq<IndexEntry>, n: nat) -> bool {
    forall|i: int| 0 <= i < hits.len() ==> entry_wf(#[trigger] hits[i]) && hits[i].2 < n
}

proof fn lemma_spans_for_wf(hits: Seq<IndexEntry>, id: usize, view: View1D, screen: ScreenSpan)
    requires
        view.wf(),
        screen.wf(),
        forall|i: int| 0 <= i < hits.len() ==> entry_wf(#[trigger] hits[i]),
    ensures
        spans_wf(spans_for(hits, id, view, screen)),
    decreases hits.len(),
{
    if hits.len() > 0 {
        lemma_spans_for_wf(hits.drop_last(), id, view, screen);
        let h = hits.last();
        assert(entry_wf(hits[hits.len() - 1]));
        if h.2 == id && overlaps_view(h.0 as int, h.1 as int, view) {
            lemma_anchor_ordered(h.0 as int, h.1 as int, view, screen);
        }
    }
}

/// Groups the anchor spans of the hits by annotation id.
pub fn collect_spans(hits: &Vec<IndexEntry>, n: usize, view: View1D, screen: ScreenSpan) -> (r: Vec<Vec<Span>>)
    requires
        view.wf(),
        screen.wf(),
        hits_wf(hits@, n as nat),
    ensures
        r@.len() == n,
        forall|id: int| 0 <= id < n ==> (#[trigger] r@[id])@ == spans_for(hits@, id as usize, view, screen),
{
    let mut lists: Vec<Vec<Span>> = Vec::new();
    let mut k: usize = 0;
    while k < n
        invariant
            0 <= k <= n,
            lists@.len() == k,
            forall|id: int| 0 <= id < k ==> (#[trigger] lists@[id])@ == Seq::<Span>::empty(),
        decreases n - k,
    {
        lists.push(Vec::new());
        k = k + 1;
    }
    assert forall|id: int| 0 <= id < n implies (#[trigger] lists@[id])@ == spans_for(hits@.take(0), id as usize, view, screen) by {
        assert(hits@.take(0).len() == 0);
    }
    let mut i: usize = 0;
    while i < hits.len()
        invariant
            0 <= i <= hits@.len(),
            view.wf(),
            screen.wf(),
            hits_wf(hits@, n as nat),
            lists@.len() == n,
            forall|id: int| 0 <= id < n ==> (#[trigger] lists@[id])@ == spans_for(hits@.take(i as int), id as usize, view, screen),
        decreases hits@.len() - i,
    {
        let (l, r, id) = hits[i];
        assert(entry_wf(hits@[i as int]));
        let a = anchor_interval(view, l as u64, r as u64, screen);
        proof {
            let pre = hits@.take(i as int + 1);
            assert(pre.drop_last() =~= hits@.take(i as int));
            assert(pre.last() == hits@[i as int]);
        }
        match a {
            Some(sp) => {
                lists.push(Vec::new());
                let mut inner: Vec<Span> = lists.swap_remove(id);
                inner.push(sp);
                lists.set(id, inner);
                proof {
                    assert forall|j: int| 0 <= j < n implies (#[trigger] lists@[j])@ == spans_for(hits@.take(i as int + 1), j as usize, view, screen) by {
                        if j == id as int {
                            assert(span_of(hits@[i as int], view, screen) == sp);
                        }
                    }
                }
            },
            None => {},
        }
        i = i + 1;
    }
    assert(hits@.take(hits@.len() as int) =~= hits@);
    lists
}

/// Per-annotation layout state.
#[derive(Clone, Copy, Debug, PartialEq, Eq, Structural)]
pub struct AnnotObj {
    /// The screen x the label is anchored at, kept across frames.
    pub target: Option<i64>,
    /// The label's width as last drawn.
    pub width: Option<u64>,
}

/// The mutable layout state of a slot, indexed by annotation id.
pub struct AnnotSlotDynamics {
    pub objs: Vec<AnnotObj>,
    pub cur_view: Option<View1D>,
    pub prev_view: Option<View1D>,
    /// Ids of the annotations visible in the current view, ascending.
    pub visible: Vec<AnnotationId>,
    /// Source of the draws that place new targets.
    pub rng: StdRng,
}

/// Largest number of annotations a slot holds; the label packing indexes
/// its entries with `u32`.
pub const MAX_ANNOTS: usize = 4294967294;

impl AnnotSlotDynamics {
    pub open spec fn wf(self, n: nat) -> bool {
        &&& self.objs@.len() == n
        &&& n <= MAX_ANNOTS
        &&& (self.cur_view matches Some(v) ==> v.wf())
        &&& (self.prev_view matches Some(v) ==> v.wf())
    }
}

/// `o` with its target carried from view `prev` to view `cur`.
pub open spec fn shift_obj(o: AnnotObj, prev: View1D, cur: View1D, screen: ScreenSpan) -> AnnotObj {
    match o.target {
        Some(t) => AnnotObj { target: Some(shifted_x(t as int, prev, cur, screen) as i64), ..o },
        None => o,
    }
}

/// The objects after a frame with view `cur` follows one with view `prev`:
/// when the view changed, every target moves with it.
pub open spec fn shifted_objs(objs: Seq<AnnotObj>, prev: Option<View1D>, cur: View1D, screen: ScreenSpan) -> Seq<AnnotObj> {
    match prev {
        Some(p) => if p != cur {
            objs.map_values(|o: AnnotObj| shift_obj(o, p, cur, screen))
        } else {
            objs
        },
        None => objs,
    }
}

/// The ids below `k` with a visible span among the hits, ascending.
pub open spec fn visible_upto(hits: Seq<IndexEntry>, k: nat, view: View1D, screen: ScreenSpan) -> Seq<AnnotationId>
    decreases k,
{
    if k == 0 {
        Seq::empty()
    } else {
        let p = visible_upto(hits, (k - 1) as nat, view, screen);
        if spans_for(hits, (k - 1) as usize, view, screen).len() > 0 {
            p.push((k - 1) as usize)
        } else {
            p
        }
    }
}

pub open spec fn width_or_default(w: Option<u64>) -> u64 {
    match w {
        Some(v) => v,
        None => 1,
    }
}

/// The placement candidate of annotation `id`.
pub open spec fn candidate_of(objs: Seq<AnnotObj>, id: AnnotationId) -> Candidate {
    (objs[id as int].target->Some_0, id, width_or_default(objs[id as int].width))
}

/// The placement candidates of the visible annotations, in id order.
pub open spec fn candidates_of(objs: Seq<AnnotObj>, vis: Seq<AnnotationId>) -> Seq<Candidate> {
    vis.map_values(|id: AnnotationId| candidate_of(objs, id))
}

/// One layout step, from state `d0` to state `d1` with output `out`, for
/// the query hits `hits` under `view` and `screen`: targets follow the view
/// change, each visible annotation's target is constrained to its spans (or
/// drawn for a new one), hidden annotations keep their state, and the
/// visible labels are placed.
pub open spec fn layout_step(
    d0: AnnotSlotDynamics,
    d1: AnnotSlotDynamics,
    hits: Seq<IndexEntry>,
    view: View1D,
    screen: ScreenSpan,
    out: Seq<(AnnotationId, i64)>,
) -> bool {
    let n = d0.objs@.len();
    let sh = shifted_objs(d0.objs@, d0.cur_view, view, screen);
    &&& d1.prev_view == d0.cur_view
    &&& d1.cur_view == Some(view)
    &&& d1.objs@.len() == n
    &&& d1.visible@ == visible_upto(hits, n, view, screen)
    &&& forall|id: int| 0 <= id < n ==> {
        let rs = spans_for(hits, id as usize, view, screen);
        if rs.len() > 0 {
            &&& (#[trigger] d1.objs@[id]).width == sh[id].width
            &&& d1.objs@[id].target is Some
            &&& covered(d1.objs@[id].target->Some_0 as int, rs)
            &&& exists|d: int| 0 <= d && (d == 0 || d < total_len(rs))
                && d1.objs@[id].target->Some_0 == chosen_target(sh[id].target, rs, d)
        } else {
            d1.objs@[id] == sh[id]
        }
    }
    &&& out == placed(candidates_of(d1.objs@, d1.visible@))
}

/// Carries every target from view `prev` to view `cur`.
fn shift_targets(objs: &mut Vec<AnnotObj>, prev: View1D, cur: View1D, screen: ScreenSpan)
    requires
        prev.wf(),
        cur.wf(),
        screen.wf(),
    ensures
        final(objs)@ == old(objs)@.map_values(|o: AnnotObj| shift_obj(o, prev, cur, screen)),
{
    let ghost orig = objs@;
    let mut i: usize = 0;
    while i < objs.len()
        invariant
            0 <= i <= objs@.len(),
            prev.wf(),
            cur.wf(),
            screen.wf(),
            objs@.len() == orig.len(),
            forall|j: int| 0 <= j < i ==> #[trigger] objs@[j] == shift_obj(orig[j], prev, cur, screen),
            forall|j: int| i <= j < objs@.len() ==> #[trigger] objs@[j] == orig[j],
        decreases objs@.len() - i,
    {
        let o = objs[i];
        match o.target {
            Some(t) => {
                let x = shift_x(t, prev, cur, screen);
                objs.set(i, AnnotObj { target: Some(x), width: o.width });
            },
            None => {},
        }
        i = i + 1;
    }
    assert(objs@ =~= orig.map_values(|o: AnnotObj| shift_obj(o, prev, cur, screen)));
}

impl AnnotSlotDynamics {
    /// Empty layout state for `n` annotations, drawing with a generator seeded by `seed`.
    pub fn new(n: usize, seed: u64) -> (r: AnnotSlotDynamics)
        requires
            n <= MAX_ANNOTS,
        ensures
            r.wf(n as nat),
            forall|id: int| 0 <= id < n ==> #[trigger] r.objs@[id] == (AnnotObj { target: None, width: None }),
            r.cur_view is None,
            r.prev_view is None,
            r.visible@.len() == 0,
    {
        let mut objs: Vec<AnnotObj> = Vec::new();
        let mut k: usize = 0;
        while k < n
            invariant
                0 <= k <= n,
                objs@.len() == k,
                forall|id: int| 0 <= id < k ==> #[trigger] objs@[id] == (AnnotObj { target: None, width: None }),
            decreases n - k,
        {
            objs.push(AnnotObj { target: None, width: None });
            k = k + 1;
        }
        AnnotSlotDynamics { objs, cur_view: None, prev_view: None, visible: Vec::new(), rng: seeded_rng(seed) }
    }

    /// Runs one layout step on the hits of the current view's query, see
    /// `layout_step`; returns the placed `(annotation id, x)` pairs.
    pub fn prepare_with_hits(&mut self, hits: &Vec<IndexEntry>, view: View1D, screen: ScreenSpan) -> (out: Vec<(AnnotationId, i64)>)
        requires
            view.wf(),
            screen.wf(),
            old(self).wf(old(self).objs@.len()),
            hits_wf(hits@, old(self).objs@.len()),
        ensures
            layout_step(*old(self), *final(self), hits@, view, screen, out@),
            final(self).wf(old(self).objs@.len()),
    {
        let ghost d0_objs = self.objs@;
        let ghost d0_view = self.cur_view;
        let prev = self.cur_view;
        self.prev_view = prev;
        self.cur_view = Some(view);
        match prev {
            Some(p) => {
                if p != view {
                    shift_targets(&mut self.objs, p, view, screen);
                }
            },
            None => {},
        }
        let ghost sh = self.objs@;
        assert(sh == shifted_objs(d0_objs, d0_view, view, screen));
        let n = self.objs.len();
        let lists = collect_spans(hits, n, view, screen);
        self.visible = Vec::new();
        let mut cands: Vec<Candidate> = Vec::new();
        let mut id: usize = 0;
        while id < n
            invariant
                0 <= id <= n,
                n == self.objs@.len(),
                n == sh.len(),
                self.prev_view == d0_view,
                self.cur_view == Some(view),
                d0_view matches Some(v) ==> v.wf(),
                n <= MAX_ANNOTS,
                view.wf(),
                screen.wf(),
                hits_wf(hits@, n as nat),
                lists@.len() == n,
                forall|k: int| 0 <= k < n ==> (#[trigger] lists@[k])@ == spans_for(hits@, k as usize, view, screen),
                self.visible@ == visible_upto(hits@, id as nat, view, screen),
                forall|j: int| 0 <= j < self.visible@.len() ==> #[trigger] self.visible@[j] < id,
                self.visible@.len() <= id,
                cands@ == candidates_of(self.objs@, self.visible@),
                forall|k: int| id <= k < n ==> #[trigger] self.objs@[k] == sh[k],
                forall|k: int| 0 <= k < id ==> {
                    let rs = spans_for(hits@, k as usize, view, screen);
                    if rs.len() > 0 {
                        &&& (#[trigger] self.objs@[k]).width == sh[k].width
                        &&& self.objs@[k].target is Some
                        &&& covered(self.objs@[k].target->Some_0 as int, rs)
                        &&& exists|d: int| 0 <= d && (d == 0 || d < total_len(rs))
                            && self.objs@[k].target->Some_0 == chosen_target(sh[k].target, rs, d)
                    } else {
                        self.objs@[k] == sh[k]
                    }
                },
            decreases n - id,
        {
            let rs: &Vec<Span> = &lists[id];
            if rs.len() > 0 {
                proof {
                    lemma_spans_for_wf(hits@, id, view, screen);
                }
                let o = self.objs[id];
                let t = select_target(o.target, rs, &mut self.rng);
                let ghost old_objs = self.objs@;
                let ghost old_vis = self.visible@;
                self.objs.set(id, AnnotObj { target: Some(t), width: o.width });
                self.visible.push(id);
                let w: u64 = match o.width {
                    Some(v) => v,
                    None => 1,
                };
                cands.push((t, id, w));
                proof {
                    assert(candidates_of(self.objs@, old_vis) =~= candidates_of(old_objs, old_vis));
                    assert(cands@ =~= candidates_of(self.objs@, self.visible@));
                }
            }
            id = id + 1;
        }
        place_labels(&cands)
    }
}

/// `hits` is what querying `index` for `view` returns: each entry that
/// touches the closed window, as often as the index holds it.
pub open spec fn query_hits(index: RangeIndex, view: View1D, hits: Seq<IndexEntry>) -> bool {
    forall|e: IndexEntry| #[trigger] hits.to_multiset().count(e) == if touches(e, view.start as int, view.end as int) {
        index_entries(index).count(e)
    } else {
        0
    }
}

/// Every entry of `index` is well formed and names one of `n` annotations.
pub open spec fn index_fits(index: RangeIndex, n: nat) -> bool {
    forall|e: IndexEntry| #[trigger] index_entries(index).count(e) > 0 ==> entry_wf(e) && e.2 < n
}

proof fn lemma_query_hits_wf(index: RangeIndex, view: View1D, hits: Seq<IndexEntry>, n: nat)
    requires
        query_hits(index, view, hits),
        index_fits(index, n),
    ensures
        hits_wf(hits, n),
{
    assert forall|i: int| 0 <= i < hits.len() implies entry_wf(#[trigger] hits[i]) && hits[i].2 < n by {
        hits.to_multiset_ensures();
        assert(hits.contains(hits[i]));
        assert(hits.to_multiset().count(hits[i]) > 0);
        assert(index_entries(index).count(hits[i]) > 0);
    }
}

impl AnnotSlotDynamics {
    /// Queries `index` for `view` and runs one layout step on the hits.
    pub fn prepare(&mut self, index: &RangeIndex, view: View1D, screen: ScreenSpan) -> (out: Vec<(AnnotationId, i64)>)
        requires
            view.wf(),
            screen.wf(),
            old(self).wf(old(self).objs@.len()),
            index_fits(*index, old(self).objs@.len()),
        ensures
            exists|hits: Seq<IndexEntry>| query_hits(*index, view, hits)
                && layout_step(*old(self), *final(self), hits, view, screen, out@),
            final(self).wf(old(self).objs@.len()),
    {
        let hits = index.query(view);
        proof {
            lemma_query_hits_wf(*index, view, hits@, self.objs@.len());
        }
        self.prepare_with_hits(&hits, view, screen)
    }
}

} // verus!
