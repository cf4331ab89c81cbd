//! Annotation slots: construction, the layout job and its single-flight scheduling.

use std::sync::Arc;

use vstd::prelude::*;

use crate::dynamics::{
    candidates_of, index_fits, layout_step, query_hits, visible_upto, AnnotObj, AnnotSlotDynamics,
    AnnotationId, MAX_ANNOTS,
};
use crate::geometry::{ScreenSpan, View1D, MAX_COORD};
use crate::placement::placed;
use crate::range_index::{entry_wf, index_entries, IndexEntry, RangeIndex};

verus! {

/// What a label draws as.
#[derive(Clone, Debug, PartialEq, Eq)]
pub enum AnnotShape {
    /// A line of text centred on the label's position.
    Text(String),
}

/// A label showing `label` as text.
pub fn text_shape(label: String) -> (r: AnnotShape)
    ensures
        r == AnnotShape::Text(label),
{
    AnnotShape::Text(label)
}

/// An annotation as handed to a slot: a half-open range and its shape.
#[derive(Debug)]
pub struct Annotation {
    pub start: u64,
    pub end: u64,
    pub shape: AnnotShape,
}

/// A layout computation, detached from its slot so that it can run elsewhere.
pub struct LayoutJob {
    pub index: Arc<RangeIndex>,
    pub dynamics: AnnotSlotDynamics,
    pub view: View1D,
    pub screen: ScreenSpan,
}

/// What a finished layout job hands back to its slot.
pub struct LayoutOutput {
    pub dynamics: AnnotSlotDynamics,
    pub positions: Vec<(AnnotationId, i64)>,
}

pub open spec fn positions_fit(ps: Seq<(AnnotationId, i64)>, n: nat) -> bool {
    forall|i: int| 0 <= i < ps.len() ==> (#[trigger] ps[i]).0 < n
}

impl LayoutJob {
    pub open spec fn wf(self) -> bool {
        &&& self.view.wf()
        &&& self.screen.wf()
        &&& self.dynamics.wf(self.dynamics.objs@.len())
        &&& index_fits(*self.index, self.dynamics.objs@.len())
    }

    /// Runs the layout step: the windowed query, target selection and
    /// placement, in sequence.
    pub fn run(self) -> (r: LayoutOutput)
        requires
            self.wf(),
        ensures
            exists|hits: Seq<IndexEntry>| query_hits(*self.index, self.view, hits)
                && layout_step(self.dynamics, r.dynamics, hits, self.view, self.screen, r.positions@),
            r.wf(self.dynamics.objs@.len()),
    {
        let LayoutJob { index, dynamics, view, screen } = self;
        let mut dynamics = dynamics;
        let positions = dynamics.prepare(&index, view, screen);
        proof {
            let hits = choose|hits: Seq<IndexEntry>| query_hits(*index, view, hits)
                && layout_step(self.dynamics, dynamics, hits, view, screen, positions@);
            lemma_placed_ids_visible(dynamics.objs@, dynamics.visible@, hits, view, screen);
        }
        LayoutOutput { dynamics, positions }
    }
}

impl LayoutOutput {
    /// The output fits a slot of `n` annotations.
    pub open spec fn wf(self, n: nat) -> bool {
        self.dynamics.wf(n) && positions_fit(self.positions@, n)
    }

    /// Whether the output fits a slot of `n` annotations.
    pub fn fits(&self, n: usize) -> (r: bool)
        ensures
            r == self.wf(n as nat),
    {
        if self.dynamics.objs.len() != n || n > MAX_ANNOTS {
            return false;
        }
        match self.dynamics.cur_view {
            Some(v) => if !(v.start < v.end && v.end <= crate::geometry::MAX_COORD) {
                return false;
            },
            None => {},
        }
        match self.dynamics.prev_view {
            Some(v) => if !(v.start < v.end && v.end <= crate::geometry::MAX_COORD) {
                return false;
            },
            None => {},
        }
        let mut i: usize = 0;
        while i < self.positions.len()
            invariant
                0 <= i <= self.positions@.len(),
                forall|j: int| 0 <= j < i ==> (#[trigger] self.positions@[j]).0 < n,
            decreases self.positions@.len() - i,
        {
            if self.positions[i].0 >= n {
                return false;
            }
            i = i + 1;
        }
        true
    }
}

proof fn lemma_visible_upto_bounded(hits: Seq<IndexEntry>, k: nat, view: View1D, screen: ScreenSpan)
    ensures
        forall|j: int| 0 <= j < visible_upto(hits, k, view, screen).len() ==> #[trigger] visible_upto(hits, k, view, screen)[j] < k,
    decreases k,
{
    if k > 0 {
        let p = visible_upto(hits, (k - 1) as nat, view, screen);
        lemma_visible_upto_bounded(hits, (k - 1) as nat, view, screen);
        let v = visible_upto(hits, k, view, screen);
        assert forall|j: int| 0 <= j < v.len() implies #[trigger] v[j] < k by {
            if j < p.len() {
                assert(v[j] == p[j]);
            }
        }
    }
}

/// Every placed label is one of the candidates, so it names a visible annotation.
proof fn lemma_placed_ids_visible(
    objs: Seq<AnnotObj>,
    vis: Seq<AnnotationId>,
    hits: Seq<IndexEntry>,
    view: View1D,
    screen: ScreenSpan,
)
    requires
        vis == visible_upto(hits, objs.len(), view, screen),
    ensures
        positions_fit(placed(candidates_of(objs, vis)), objs.len()),
{
    lemma_visible_upto_bounded(hits, objs.len(), view, screen);
    let cs = candidates_of(objs, vis);
    let ord = crate::placement::placement_order(cs);
    crate::placement::lemma_placement_order_sorted(cs);
    crate::placement::lemma_first_fit_rejects_only_overlaps(ord);
    let ff = crate::placement::first_fit(ord);
    assert forall|i: int| 0 <= i < placed(cs).len() implies (#[trigger] placed(cs)[i]).0 < objs.len() by {
        assert(ord.contains(ff[i]));
        let k = choose|k: int| 0 <= k < ord.len() && ord[k] == ff[i];
        ord.to_multiset_ensures();
        cs.to_multiset_ensures();
        assert(ord.to_multiset().count(ff[i]) > 0);
        assert(cs.to_multiset().count(ff[i]) > 0);
        assert(cs.contains(ff[i]));
        let m = choose|m: int| 0 <= m < cs.len() && cs[m] == ff[i];
        assert(cs[m].1 == vis[m]);
    }
}

/// Relies on `Arc::clone`: another handle to the same index.
#[verifier::external_body]
fn share_index(a: &Arc<RangeIndex>) -> (r: Arc<RangeIndex>)
    ensures
        *r == **a,
{
    Arc::clone(a)
}

/// Where a slot's last layout job stands, as seen by whoever runs it.
pub enum TaskPoll {
    /// No job is running.
    Idle,
    /// A job is running and has not finished.
    Running,
    /// The job finished with this output.
    Finished(LayoutOutput),
}

/// A layout and rendering context for one group of annotations.
pub struct AnnotSlot {
    /// Ranges of all annotations, fixed when the slot is built.
    pub annots: Arc<RangeIndex>,
    /// The annotations, indexed by id; their shapes are drawn at placed positions.
    pub labels: Vec<Annotation>,
    /// The layout state; `None` while a layout job holds it.
    pub dynamics: Option<AnnotSlotDynamics>,
    /// The `(annotation id, x)` pairs of the last finished layout.
    pub positions: Vec<(AnnotationId, i64)>,
    /// The `(annotation id, width)` pairs measured when the positions were last drawn.
    pub shape_sizes: Vec<(AnnotationId, u64)>,
}

/// `objs` with the measured widths recorded, later entries winning; entries
/// naming no annotation are skipped.
pub open spec fn merged_sizes(objs: Seq<AnnotObj>, sizes: Seq<(AnnotationId, u64)>) -> Seq<AnnotObj>
    decreases sizes.len(),
{
    if sizes.len() == 0 {
        objs
    } else {
        let o = merged_sizes(objs, sizes.drop_last());
        let e = sizes.last();
        if e.0 < o.len() {
            o.update(e.0 as int, AnnotObj { width: Some(e.1), ..o[e.0 as int] })
        } else {
            o
        }
    }
}

proof fn lemma_merged_sizes_len(objs: Seq<AnnotObj>, sizes: Seq<(AnnotationId, u64)>)
    ensures
        merged_sizes(objs, sizes).len() == objs.len(),
    decreases sizes.len(),
{
    if sizes.len() > 0 {
        lemma_merged_sizes_len(objs, sizes.drop_last());
    }
}

/// Records measured widths in the objects.
fn merge_sizes(objs: &mut Vec<AnnotObj>, sizes: &Vec<(AnnotationId, u64)>)
    ensures
        final(objs)@ == merged_sizes(old(objs)@, sizes@),
{
    let ghost orig = objs@;
    let mut i: usize = 0;
    while i < sizes.len()
        invariant
            0 <= i <= sizes@.len(),
            objs@ == merged_sizes(orig, sizes@.take(i as int)),
        decreases sizes@.len() - i,
    {
        let (id, w) = sizes[i];
        proof {
            let pre = sizes@.take(i as int + 1);
            assert(pre.drop_last() =~= sizes@.take(i as int));
            assert(pre.last() == sizes@[i as int]);
        }
        if id < objs.len() {
            let o = objs[id];
            objs.set(id, AnnotObj { target: o.target, width: Some(w) });
        }
        i = i + 1;
    }
    assert(sizes@.take(sizes@.len() as int) =~= sizes@);
}

/// What one call of `AnnotSlot::update` does: a finished job's output
/// replaces the layout state and positions; while a job runs nothing
/// changes; with no job running, the measured widths are merged into the
/// layout state, which leaves with a new job for `view` and `screen`.
pub open spec fn update_post(
    s0: AnnotSlot,
    poll: TaskPoll,
    view: View1D,
    screen: ScreenSpan,
    s1: AnnotSlot,
    job: Option<LayoutJob>,
) -> bool {
    &&& s1.annots == s0.annots
    &&& s1.labels == s0.labels
    &&& s1.shape_sizes == s0.shape_sizes
    &&& match poll {
        TaskPoll::Finished(out) => {
            &&& job is None
            &&& if s0.in_flight() {
                s1.dynamics == Some(out.dynamics) && s1.positions == out.positions
            } else {
                s1.dynamics == s0.dynamics && s1.positions == s0.positions
            }
        },
        TaskPoll::Running => {
            &&& job is None
            &&& s1.dynamics == s0.dynamics
            &&& s1.positions == s0.positions
        },
        TaskPoll::Idle => {
            &&& s1.positions == s0.positions
            &&& if s0.in_flight() {
                job is None && s1.dynamics is None
            } else {
                let d0 = s0.dynamics->Some_0;
                let j = job->Some_0;
                &&& job is Some
                &&& s1.in_flight()
                &&& j.view == view
                &&& j.screen == screen
                &&& *j.index == *s0.annots
                &&& j.dynamics.objs@ == merged_sizes(d0.objs@, s0.shape_sizes@)
                &&& j.dynamics.cur_view == d0.cur_view
                &&& j.dynamics.prev_view == d0.prev_view
                &&& j.dynamics.visible == d0.visible
                &&& j.dynamics.rng == d0.rng
            }
        },
    }
}

impl AnnotSlot {
    pub open spec fn wf(self) -> bool {
        &&& self.labels@.len() <= MAX_ANNOTS
        &&& index_fits(*self.annots, self.labels@.len())
        &&& (self.dynamics matches Some(d) ==> d.wf(self.labels@.len()))
        &&& positions_fit(self.positions@, self.labels@.len())
    }

    /// A layout job holds the slot's layout state.
    pub open spec fn in_flight(self) -> bool {
        self.dynamics is None
    }

    /// Advances the slot by one frame; see `update_post`. A returned job is
    /// to be run (`LayoutJob::run`) and its output handed back with
    /// `TaskPoll::Finished`.
    pub fn update(&mut self, poll: TaskPoll, view: View1D, screen: ScreenSpan) -> (job: Option<LayoutJob>)
        requires
            old(self).wf(),
            view.wf(),
            screen.wf(),
            poll matches TaskPoll::Finished(out) ==> out.wf(old(self).labels@.len()),
        ensures
            final(self).wf(),
            update_post(*old(self), poll, view, screen, *final(self), job),
            job matches Some(j) ==> j.wf() && j.dynamics.objs@.len() == old(self).labels@.len(),
    {
        match poll {
            TaskPoll::Finished(out) => {
                if self.dynamics.is_none() {
                    let LayoutOutput { dynamics, positions } = out;
                    self.dynamics = Some(dynamics);
                    self.positions = positions;
                }
                None
            },
            TaskPoll::Running => None,
            TaskPoll::Idle => {
                let taken = self.dynamics.take();
                match taken {
                    Some(d) => {
                        let mut d = d;
                        merge_sizes(&mut d.objs, &self.shape_sizes);
                        proof {
                            lemma_merged_sizes_len(old(self).dynamics->Some_0.objs@, self.shape_sizes@);
                        }
                        let index = share_index(&self.annots);
                        Some(LayoutJob { index, dynamics: d, view, screen })
                    },
                    None => None,
                }
            },
        }
    }

    /// Records the widths measured when the current positions were drawn;
    /// the next layout job uses them.
    pub fn set_shape_sizes(&mut self, sizes: Vec<(AnnotationId, u64)>)
        ensures
            final(self).shape_sizes == sizes,
            final(self).annots == old(self).annots,
            final(self).labels == old(self).labels,
            final(self).dynamics == old(self).dynamics,
            final(self).positions == old(self).positions,
    {
        self.shape_sizes = sizes;
    }
}

/// Single flight: of two consecutive updates at most one starts a layout
/// job, a job starts only when none is running, and the slot then counts as
/// running one until a finished output is handed back.
pub proof fn lemma_single_flight(
    s0: AnnotSlot,
    poll_a: TaskPoll,
    v1: View1D,
    r1: ScreenSpan,
    s1: AnnotSlot,
    j1: Option<LayoutJob>,
    poll_b: TaskPoll,
    v2: View1D,
    r2: ScreenSpan,
    s2: AnnotSlot,
    j2: Option<LayoutJob>,
)
    requires
        update_post(s0, poll_a, v1, r1, s1, j1),
        update_post(s1, poll_b, v2, r2, s2, j2),
    ensures
        !(j1 is Some && j2 is Some),
        j1 is Some ==> !s0.in_flight() && s1.in_flight(),
        s0.in_flight() && !(poll_a is Finished) ==> j1 is None && s1.in_flight(),
{
}

/// The index entries of annotations given in pangenome space: each range,
/// its end clamped to `MAX_COORD`, tagged with the annotation's position in
/// the list; ranges left empty are dropped.
pub open spec fn pangenome_entries(anns: Seq<Annotation>) -> Seq<IndexEntry>
    decreases anns.len(),
{
    if anns.len() == 0 {
        Seq::empty()
    } else {
        let p = pangenome_entries(anns.drop_last());
        let a = anns.last();
        let e = if a.end <= MAX_COORD { a.end } else { MAX_COORD };
        if a.start < e {
            p.push((a.start as i64, e as i64, (anns.len() - 1) as usize))
        } else {
            p
        }
    }
}

proof fn lemma_pangenome_entries_fit(anns: Seq<Annotation>)
    ensures
        forall|i: int| 0 <= i < pangenome_entries(anns).len() ==> entry_wf(#[trigger] pangenome_entries(anns)[i])
            && pangenome_entries(anns)[i].2 < anns.len(),
    decreases anns.len(),
{
    if anns.len() > 0 {
        let p = pangenome_entries(anns.drop_last());
        lemma_pangenome_entries_fit(anns.drop_last());
        let r = pangenome_entries(anns);
        assert forall|i: int| 0 <= i < r.len() implies entry_wf(#[trigger] r[i]) && r[i].2 < anns.len() by {
            if i < p.len() {
                assert(r[i] == p[i]);
            }
        }
    }
}

proof fn lemma_entries_fit_index(items: Seq<IndexEntry>, index: RangeIndex, n: nat)
    requires
        index_entries(index) == items.to_multiset(),
        forall|i: int| 0 <= i < items.len() ==> entry_wf(#[trigger] items[i]) && items[i].2 < n,
    ensures
        index_fits(index, n),
{
    assert forall|e: IndexEntry| #[trigger] index_entries(index).count(e) > 0 implies entry_wf(e) && e.2 < n by {
        items.to_multiset_ensures();
        assert(items.contains(e));
    }
}

impl AnnotSlot {
    fn from_entries(items: Vec<IndexEntry>, labels: Vec<Annotation>, seed: u64) -> (r: AnnotSlot)
        requires
            labels@.len() <= MAX_ANNOTS,
            forall|i: int| 0 <= i < items@.len() ==> entry_wf(#[trigger] items@[i]) && items@[i].2 < labels@.len(),
        ensures
            r.wf(),
            !r.in_flight(),
            index_entries(*r.annots) == items@.to_multiset(),
            r.labels == labels,
            r.positions@.len() == 0,
            r.shape_sizes@.len() == 0,
            r.dynamics->Some_0.cur_view is None,
            forall|id: int| 0 <= id < labels@.len() ==> #[trigger] r.dynamics->Some_0.objs@[id] == (AnnotObj { target: None, width: None }),
    {
        let ghost s = items@;
        let index = RangeIndex::new(items);
        proof {
            lemma_entries_fit_index(s, index, labels@.len());
        }
        let dynamics = AnnotSlotDynamics::new(labels.len(), seed);
        AnnotSlot {
            annots: Arc::new(index),
            labels,
            dynamics: Some(dynamics),
            positions: Vec::new(),
            shape_sizes: Vec::new(),
        }
    }

    /// A slot over annotations whose ranges are in pangenome space; the
    /// annotation at position `i` of the list gets id `i`. New targets are
    /// drawn from a generator seeded with `seed`.
    pub fn new_from_pangenome_space(annotations: Vec<Annotation>, seed: u64) -> (r: AnnotSlot)
        requires
            annotations@.len() <= MAX_ANNOTS,
        ensures
            r.wf(),
            !r.in_flight(),
            index_entries(*r.annots) == pangenome_entries(annotations@).to_multiset(),
            r.labels == annotations,
            r.positions@.len() == 0,
            r.shape_sizes@.len() == 0,
    {
        let mut items: Vec<IndexEntry> = Vec::new();
        let mut i: usize = 0;
        while i < annotations.len()
            invariant
                0 <= i <= annotations@.len(),
                items@ == pangenome_entries(annotations@.take(i as int)),
            decreases annotations@.len() - i,
        {
            let a = &annotations[i];
            let e: u64 = if a.end <= MAX_COORD { a.end } else { MAX_COORD };
            proof {
                let pre = annotations@.take(i as int + 1);
                assert(pre.drop_last() =~= annotations@.take(i as int));
                assert(pre.last() == annotations@[i as int]);
            }
            if a.start < e {
                items.push((a.start as i64, e as i64, i));
            }
            i = i + 1;
        }
        proof {
            assert(annotations@.take(annotations@.len() as int) =~= annotations@);
            lemma_pangenome_entries_fit(annotations@);
        }
        AnnotSlot::from_entries(items, annotations, seed)
    }
}

/// One step of a path: the node it visits, given by the node's start in
/// pangenome space and its length.
#[derive(Clone, Copy, Debug, PartialEq, Eq, Structural)]
pub struct PathStep {
    pub node_start: u64,
    pub len: u64,
}

/// The path offset where step `k` begins.
pub open spec fn path_offset(steps: Seq<PathStep>, k: int) -> int
    decreases k,
{
    if k <= 0 || k > steps.len() {
        0
    } else {
        path_offset(steps, k - 1) + steps[k - 1].len
    }
}

/// Every node lies within `MAX_COORD`, and so does the path's length.
pub open spec fn steps_wf(steps: Seq<PathStep>) -> bool {
    &&& forall|k: int| 0 <= k < steps.len() ==> #[trigger] steps[k].node_start + steps[k].len <= MAX_COORD
    &&& path_offset(steps, steps.len() as int) <= MAX_COORD
}

/// The part of path range `[ps, pe)` that falls on step `k`, as a pangenome
/// range tagged with `id`; `None` when it is empty.
pub open spec fn step_piece(steps: Seq<PathStep>, k: int, ps: int, pe: int, id: usize) -> Option<IndexEntry> {
    let off = path_offset(steps, k);
    let lo = crate::geometry::max_int(ps, off);
    let hi = crate::geometry::min_int(pe, off + steps[k].len);
    if lo < hi {
        Some(((steps[k].node_start + (lo - off)) as i64, (steps[k].node_start + (hi - off)) as i64, id))
    } else {
        None
    }
}

/// The pieces of `[ps, pe)` on the first `k` steps, in path order.
pub open spec fn path_pieces(steps: Seq<PathStep>, k: int, ps: int, pe: int, id: usize) -> Seq<IndexEntry>
    decreases k,
{
    if k <= 0 || k > steps.len() {
        Seq::empty()
    } else {
        let p = path_pieces(steps, k - 1, ps, pe, id);
        match step_piece(steps, k - 1, ps, pe, id) {
            Some(e) => p.push(e),
            None => p,
        }
    }
}

/// The index entries of annotations given in path space: each range cut at
/// the node boundaries and moved to pangenome space; parts beyond the path
/// are dropped.
pub open spec fn path_entries(steps: Seq<PathStep>, anns: Seq<Annotation>) -> Seq<IndexEntry>
    decreases anns.len(),
{
    if anns.len() == 0 {
        Seq::empty()
    } else {
        let a = anns.last();
        path_entries(steps, anns.drop_last()) + path_pieces(
            steps,
            steps.len() as int,
            a.start as int,
            a.end as int,
            (anns.len() - 1) as usize,
        )
    }
}

proof fn lemma_path_offset_mono(steps: Seq<PathStep>, j: int, k: int)
    requires
        0 <= j <= k <= steps.len(),
    ensures
        0 <= path_offset(steps, j) <= path_offset(steps, k),
    decreases k,
{
    if k > 0 {
        if j < k {
            lemma_path_offset_mono(steps, j, k - 1);
        } else {
            lemma_path_offset_mono(steps, 0, k - 1);
        }
    }
}

proof fn lemma_path_pieces_fit(steps: Seq<PathStep>, k: int, ps: int, pe: int, id: usize)
    requires
        steps_wf(steps),
        0 <= k <= steps.len(),
    ensures
        forall|i: int| 0 <= i < path_pieces(steps, k, ps, pe, id).len() ==> entry_wf(#[trigger] path_pieces(steps, k, ps, pe, id)[i])
            && path_pieces(steps, k, ps, pe, id)[i].2 == id,
    decreases k,
{
    if k > 0 {
        let p = path_pieces(steps, k - 1, ps, pe, id);
        lemma_path_pieces_fit(steps, k - 1, ps, pe, id);
        lemma_path_offset_mono(steps, k - 1, steps.len() as int);
        assert(steps[k - 1].node_start + steps[k - 1].len <= MAX_COORD);
        let r = path_pieces(steps, k, ps, pe, id);
        assert forall|i: int| 0 <= i < r.len() implies entry_wf(#[trigger] r[i]) && r[i].2 == id by {
            if i < p.len() {
                assert(r[i] == p[i]);
            }
        }
    }
}

proof fn lemma_path_entries_fit(steps: Seq<PathStep>, anns: Seq<Annotation>)
    requires
        steps_wf(steps),
    ensures
        forall|i: int| 0 <= i < path_entries(steps, anns).len() ==> entry_wf(#[trigger] path_entries(steps, anns)[i])
            && path_entries(steps, anns)[i].2 < anns.len(),
    decreases anns.len(),
{
    if anns.len() > 0 {
        let a = anns.last();
        let p = path_entries(steps, anns.drop_last());
        let q = path_pieces(steps, steps.len() as int, a.start as int, a.end as int, (anns.len() - 1) as usize);
        lemma_path_entries_fit(steps, anns.drop_last());
        lemma_path_pieces_fit(steps, steps.len() as int, a.start as int, a.end as int, (anns.len() - 1) as usize);
        assert forall|i: int| 0 <= i < (p + q).len() implies entry_wf(#[trigger] (p + q)[i]) && (p + q)[i].2 < anns.len() by {
            if i >= p.len() {
                assert((p + q)[i] == q[i - p.len()]);
            }
        }
    }
}

impl AnnotSlot {
    /// A slot over annotations whose ranges are in the space of the path
    /// with steps `steps`: each range is cut at node boundaries and moved to
    /// pangenome space. The annotation at position `i` of the list gets id `i`.
    pub fn new_from_path_space(steps: &Vec<PathStep>, annotations: Vec<Annotation>, seed: u64) -> (r: AnnotSlot)
        requires
            steps_wf(steps@),
            annotations@.len() <= MAX_ANNOTS,
        ensures
            r.wf(),
            !r.in_flight(),
            index_entries(*r.annots) == path_entries(steps@, annotations@).to_multiset(),
            r.labels == annotations,
            r.positions@.len() == 0,
            r.shape_sizes@.len() == 0,
    {
        let mut items: Vec<IndexEntry> = Vec::new();
        let mut i: usize = 0;
        while i < annotations.len()
            invariant
                0 <= i <= annotations@.len(),
                steps_wf(steps@),
                items@ == path_entries(steps@, annotations@.take(i as int)),
            decreases annotations@.len() - i,
        {
            let ps = annotations[i].start;
            let pe = annotations[i].end;
            let ghost base = items@;
            let mut off: u64 = 0;
            let mut k: usize = 0;
            while k < steps.len()
                invariant
                    0 <= k <= steps@.len(),
                    steps_wf(steps@),
                    off == path_offset(steps@, k as int),
                    items@ == base + path_pieces(steps@, k as int, ps as int, pe as int, i),
                decreases steps@.len() - k,
            {
                let st = steps[k];
                proof {
                    lemma_path_offset_mono(steps@, k as int + 1, steps@.len() as int);
                    assert(steps@[k as int].node_start + steps@[k as int].len <= MAX_COORD);
                }
                let end = off + st.len;
                let lo = if ps >= off { ps } else { off };
                let hi = if pe <= end { pe } else { end };
                if lo < hi {
                    items.push(((st.node_start + (lo - off)) as i64, (st.node_start + (hi - off)) as i64, i));
                }
                proof {
                    assert(items@ =~= base + path_pieces(steps@, k as int + 1, ps as int, pe as int, i));
                }
                off = end;
                k = k + 1;
            }
            proof {
                let pre = annotations@.take(i as int + 1);
                assert(pre.drop_last() =~= annotations@.take(i as int));
                assert(pre.last() == annotations@[i as int]);
            }
            i = i + 1;
        }
        proof {
            assert(annotations@.take(annotations@.len() as int) =~= annotations@);
            lemma_path_entries_fit(steps@, annotations@);
        }
        AnnotSlot::from_entries(items, annotations, seed)
    }
}

/// A slot of text labels over pangenome ranges: label `i` shows
/// `labels[i].2` over `[labels[i].0, labels[i].1)`.
pub fn pangenome_range_labels(labels: Vec<(u64, u64, String)>, seed: u64) -> (r: AnnotSlot)
    requires
        labels@.len() <= MAX_ANNOTS,
    ensures
        r.wf(),
        !r.in_flight(),
        r.labels@.len() == labels@.len(),
        forall|i: int| 0 <= i < labels@.len() ==> (#[trigger] r.labels@[i]).start == labels@[i].0
            && r.labels@[i].end == labels@[i].1 && r.labels@[i].shape == AnnotShape::Text(labels@[i].2),
        index_entries(*r.annots) == pangenome_entries(r.labels@).to_multiset(),
{
    let ghost orig = labels@;
    let mut rest = labels;
    let mut rev: Vec<Annotation> = Vec::new();
    while rest.len() > 0
        invariant
            rest@.len() + rev@.len() == orig.len(),
            rest@ == orig.take(rest@.len() as int),
            forall|j: int| 0 <= j < rev@.len() ==> {
                let l = #[trigger] orig[orig.len() - 1 - j];
                rev@[j].start == l.0 && rev@[j].end == l.1 && rev@[j].shape == AnnotShape::Text(l.2)
            },
        decreases rest@.len(),
    {
        let (start, end, text) = rest.pop().unwrap();
        proof {
            assert(rest@ =~= orig.take(rest@.len() as int));
        }
        rev.push(Annotation { start, end, shape: text_shape(text) });
    }
    let mut anns: Vec<Annotation> = Vec::new();
    while rev.len() > 0
        invariant
            rev@.len() + anns@.len() == orig.len(),
            forall|j: int| 0 <= j < rev@.len() ==> {
                let l = #[trigger] orig[orig.len() - 1 - j];
                rev@[j].start == l.0 && rev@[j].end == l.1 && rev@[j].shape == AnnotShape::Text(l.2)
            },
            forall|i: int| 0 <= i < anns@.len() ==> (#[trigger] anns@[i]).start == orig[i].0
                && anns@[i].end == orig[i].1 && anns@[i].shape == AnnotShape::Text(orig[i].2),
        decreases rev@.len(),
    {
        let a = rev.pop().unwrap();
        proof {
            let j = rev@.len() as int;
            assert(orig[orig.len() - 1 - j] == orig[anns@.len() as int]);
        }
        anns.push(a);
    }
    AnnotSlot::new_from_pangenome_space(anns, seed)
}

/// A slot of text labels over graph nodes: `node_ranges[n]` is the
/// pangenome range of node `n`, and label `i` shows `labels[i].1` over the
/// range of node `labels[i].0`.
pub fn label_nodes(node_ranges: &Vec<(u64, u64)>, labels: Vec<(usize, String)>, seed: u64) -> (r: AnnotSlot)
    requires
        labels@.len() <= MAX_ANNOTS,
        forall|i: int| 0 <= i < labels@.len() ==> (#[trigger] labels@[i]).0 < node_ranges@.len(),
    ensures
        r.wf(),
        !r.in_flight(),
        r.labels@.len() == labels@.len(),
        forall|i: int| 0 <= i < labels@.len() ==> (#[trigger] r.labels@[i]).start == node_ranges@[labels@[i].0 as int].0
            && r.labels@[i].end == node_ranges@[labels@[i].0 as int].1
            && r.labels@[i].shape == AnnotShape::Text(labels@[i].1),
        index_entries(*r.annots) == pangenome_entries(r.labels@).to_multiset(),
{
    let ghost orig = labels@;
    let mut rest = labels;
    let mut rev: Vec<(u64, u64, String)> = Vec::new();
    while rest.len() > 0
        invariant
            rest@.len() + rev@.len() == orig.len(),
            rest@ == orig.take(rest@.len() as int),
            forall|i: int| 0 <= i < orig.len() ==> (#[trigger] orig[i]).0 < node_ranges@.len(),
            forall|j: int| 0 <= j < rev@.len() ==> {
                let l = #[trigger] orig[orig.len() - 1 - j];
                rev@[j] == (node_ranges@[l.0 as int].0, node_ranges@[l.0 as int].1, l.1)
            },
        decreases rest@.len(),
    {
        let (node, text) = rest.pop().unwrap();
        proof {
            assert(rest@ =~= orig.take(rest@.len() as int));
            assert(orig[rest@.len() as int].0 < node_ranges@.len());
        }
        let (start, end) = node_ranges[node];
        rev.push((start, end, text));
    }
    let mut triples: Vec<(u64, u64, String)> = Vec::new();
    while rev.len() > 0
        invariant
            rev@.len() + triples@.len() == orig.len(),
            forall|j: int| 0 <= j < rev@.len() ==> {
                let l = #[trigger] orig[orig.len() - 1 - j];
                rev@[j] == (node_ranges@[l.0 as int].0, node_ranges@[l.0 as int].1, l.1)
            },
            forall|i: int| 0 <= i < triples@.len() ==> #[trigger] triples@[i] == (
                node_ranges@[orig[i].0 as int].0,
                node_ranges@[orig[i].0 as int].1,
                orig[i].1,
            ),
        decreases rev@.len(),
    {
        let t = rev.pop().unwrap();
        proof {
            let j = rev@.len() as int;
            assert(orig[orig.len() - 1 - j] == orig[triples@.len() as int]);
        }
        triples.push(t);
    }
    pangenome_range_labels(triples, seed)
}

/// Every annotation id that a slot's index holds has an entry in the
/// slot's label table, for every slot the constructors build and every
/// state `update` leads to.
pub proof fn lemma_index_ids_have_labels(slot: AnnotSlot, e: IndexEntry)
    requires
        slot.wf(),
        index_entries(*slot.annots).count(e) > 0,
    ensures
        e.2 < slot.labels@.len(),
{
}

impl AnnotSlot {
    /// The label table entry of annotation `id`.
    pub fn label(&self, id: AnnotationId) -> (r: Option<&Annotation>)
        ensures
            match r {
                Some(a) => id < self.labels@.len() && *a == self.labels@[id as int],
                None => id >= self.labels@.len(),
            },
    {
        if id < self.labels.len() {
            Some(&self.labels[id])
        } else {
            None
        }
    }

    /// The `(annotation id, x)` pairs of the last finished layout.
    pub fn positions(&self) -> (r: &Vec<(AnnotationId, i64)>)
        ensures
            *r == self.positions,
    {
        &self.positions
    }

    /// Whether a layout job holds the slot's layout state.
    pub fn is_in_flight(&self) -> (r: bool)
        ensures
            r == self.in_flight(),
    {
        self.dynamics.is_none()
    }
}

} // verus!
