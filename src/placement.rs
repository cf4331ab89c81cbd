//! Collision-free packing of label footprints along the screen's x axis.
//!
//! A label that loses to an earlier one is left out of the frame's output
//! outright: it is not drawn at all that frame, with no fading, and it keeps
//! its target for the frames that follow.

use iset::IntervalMap;
use vstd::multiset::Multiset;
use vstd::prelude::*;

verus! {

/// A label waiting for placement: `(target x, annotation id, measured width)`.
pub type Candidate = (i64, usize, u64);

/// A half-open screen-space extent `[lo, hi)`.
pub type Extent = (i128, i128);

/// The labels accepted so far, keyed by their screen-space extents.
#[verifier::external_body]
pub struct PlacedLabels {
    map: IntervalMap<i128, usize>,
}

/// The extents held, each with the annotation id stored under it.
pub uninterp spec fn placed_extents(m: PlacedLabels) -> Map<Extent, usize>;

/// Half-open extents `[a.0, a.1)` and `[b.0, b.1)` share a point.
pub open spec fn ext_overlap(a: (int, int), b: (int, int)) -> bool {
    a.0 < b.1 && b.0 < a.1
}

/// Some extent of `m` overlaps `[lo, hi)`.
pub open spec fn any_overlap(m: Map<Extent, usize>, lo: int, hi: int) -> bool {
    exists|k: Extent| #[trigger] m.dom().contains(k) && ext_overlap((k.0 as int, k.1 as int), (lo, hi))
}

/// Relies on iset's `IntervalMap::new`: an empty map.
#[verifier::external_body]
fn placed_new() -> (m: PlacedLabels)
    ensures
        placed_extents(m) =~= Map::empty(),
{
    PlacedLabels { map: IntervalMap::new() }
}

/// Relies on iset's `IntervalMap::has_overlap` on `lo..hi`: whether a stored
/// interval overlaps the query; it panics on an empty query, which `lo < hi`
/// rules out.
#[verifier::external_body]
fn placed_has_overlap(m: &PlacedLabels, lo: i128, hi: i128) -> (r: bool)
    requires
        lo < hi,
    ensures
        r == any_overlap(placed_extents(*m), lo as int, hi as int),
{
    m.map.has_overlap(lo..hi)
}

/// Relies on iset's `IntervalMap::insert` of `lo..hi`: the interval is stored
/// with `id`, replacing the value of an equal interval. It panics on an empty
/// interval and when the `u32` node index runs out, which the bounds rule out.
#[verifier::external_body]
fn placed_insert(m: &mut PlacedLabels, lo: i128, hi: i128, id: usize)
    requires
        lo < hi,
        placed_extents(*old(m)).dom().len() < 4294967295,
    ensures
        placed_extents(*final(m)) == placed_extents(*old(m)).insert((lo, hi), id),
{
    m.map.insert(lo..hi, id);
}

/// The width a label occupies: its measured width, or 1 when none is known.
pub open spec fn footprint(w: u64) -> int {
    if w == 0 {
        1
    } else {
        w as int
    }
}

/// The extent `[x - w/2, x - w/2 + w)` of a candidate centred on its target.
pub open spec fn extent(c: Candidate) -> (int, int) {
    let w = footprint(c.2);
    (c.0 - w / 2, c.0 - w / 2 + w)
}

/// Candidate `a` comes strictly before `b`: by target, then by id.
pub open spec fn cand_lt(a: Candidate, b: Candidate) -> bool {
    a.0 < b.0 || (a.0 == b.0 && a.1 < b.1)
}

/// Where `c` goes in `s`, looking from index `k` on: before the first element
/// that `c` comes strictly before.
pub open spec fn ins_pos(s: Seq<Candidate>, c: Candidate, k: int) -> int
    decreases s.len() - k,
{
    if k < 0 || k >= s.len() || cand_lt(c, s[k]) {
        k
    } else {
        ins_pos(s, c, k + 1)
    }
}

/// The candidates in placement order, by target and then id.
pub open spec fn placement_order(cs: Seq<Candidate>) -> Seq<Candidate>
    decreases cs.len(),
{
    if cs.len() == 0 {
        Seq::empty()
    } else {
        let s = placement_order(cs.drop_last());
        s.insert(ins_pos(s, cs.last(), 0), cs.last())
    }
}

/// First fit: each candidate in turn is accepted when its extent overlaps
/// none of those accepted before it.
pub open spec fn first_fit(cs: Seq<Candidate>) -> Seq<Candidate>
    decreases cs.len(),
{
    if cs.len() == 0 {
        Seq::empty()
    } else {
        let acc = first_fit(cs.drop_last());
        let c = cs.last();
        if exists|j: int| 0 <= j < acc.len() && ext_overlap(extent(#[trigger] acc[j]), extent(c)) {
            acc
        } else {
            acc.push(c)
        }
    }
}

/// The `(annotation id, x)` pairs of placed candidates.
pub open spec fn positions_of(s: Seq<Candidate>) -> Seq<(usize, i64)> {
    s.map_values(|c: Candidate| (c.1, c.0))
}

/// What placement yields for `cs`.
pub open spec fn placed(cs: Seq<Candidate>) -> Seq<(usize, i64)> {
    positions_of(first_fit(placement_order(cs)))
}

proof fn lemma_ins_pos_bounds(s: Seq<Candidate>, c: Candidate, k: int)
    requires
        0 <= k <= s.len(),
    ensures
        k <= ins_pos(s, c, k) <= s.len(),
    decreases s.len() - k,
{
    if k < s.len() && !cand_lt(c, s[k]) {
        lemma_ins_pos_bounds(s, c, k + 1);
    }
}

proof fn lemma_placement_order_len(cs: Seq<Candidate>)
    ensures
        placement_order(cs).len() == cs.len(),
    decreases cs.len(),
{
    if cs.len() > 0 {
        lemma_placement_order_len(cs.drop_last());
        lemma_ins_pos_bounds(placement_order(cs.drop_last()), cs.last(), 0);
    }
}

/// Puts the candidates in placement order.
pub fn order_candidates(cs: &Vec<Candidate>) -> (r: Vec<Candidate>)
    ensures
        r@ == placement_order(cs@),
{
    let mut out: Vec<Candidate> = Vec::new();
    let mut i: usize = 0;
    while i < cs.len()
        invariant
            0 <= i <= cs@.len(),
            out@ == placement_order(cs@.take(i as int)),
        decreases cs@.len() - i,
    {
        let c = cs[i];
        proof {
            lemma_placement_order_len(cs@.take(i as int));
        }
        let mut p: usize = 0;
        while p < out.len() && !(c.0 < out[p].0 || (c.0 == out[p].0 && c.1 < out[p].1))
            invariant
                0 <= p <= out@.len(),
                ins_pos(out@, c, 0) == ins_pos(out@, c, p as int),
            decreases out@.len() - p,
        {
            p = p + 1;
        }
        proof {
            let pre = cs@.take(i as int + 1);
            assert(pre.drop_last() =~= cs@.take(i as int));
            assert(pre.last() == c);
        }
        out.insert(p, c);
        i = i + 1;
    }
    assert(cs@.take(cs@.len() as int) =~= cs@);
    out
}

/// The extent of candidate `c`, computed.
fn extent_of(c: Candidate) -> (r: (i128, i128))
    ensures
        (r.0 as int, r.1 as int) == extent(c),
        r.0 < r.1,
{
    let w: i128 = if c.2 == 0 { 1 } else { c.2 as i128 };
    let lo: i128 = c.0 as i128 - w / 2;
    (lo, lo + w)
}

/// Accepts the candidates in the given order by first fit.
pub fn first_fit_exec(cs: &Vec<Candidate>) -> (r: Vec<(usize, i64)>)
    requires
        cs@.len() < 4294967295,
    ensures
        r@ == positions_of(first_fit(cs@)),
{
    let mut m = placed_new();
    let mut out: Vec<(usize, i64)> = Vec::new();
    let ghost mut acc: Seq<Candidate> = Seq::empty();
    let mut i: usize = 0;
    while i < cs.len()
        invariant
            0 <= i <= cs@.len(),
            cs@.len() < 4294967295,
            acc == first_fit(cs@.take(i as int)),
            out@ == positions_of(acc),
            acc.len() <= i,
            placed_extents(m).dom().finite(),
            placed_extents(m).dom().len() == acc.len(),
            forall|k: Extent| #[trigger] placed_extents(m).dom().contains(k) <==> exists|j: int| 0 <= j < acc.len() && extent(#[trigger] acc[j]) == (k.0 as int, k.1 as int),
        decreases cs@.len() - i,
    {
        let c = cs[i];
        let (lo, hi) = extent_of(c);
        let hit = placed_has_overlap(&m, lo, hi);
        proof {
            let pre = cs@.take(i as int + 1);
            assert(pre.drop_last() =~= cs@.take(i as int));
            assert(pre.last() == c);
        }
        if hit {
            proof {
                let k = choose|k: Extent| #[trigger] placed_extents(m).dom().contains(k) && ext_overlap((k.0 as int, k.1 as int), (lo as int, hi as int));
                let j = choose|j: int| 0 <= j < acc.len() && extent(#[trigger] acc[j]) == (k.0 as int, k.1 as int);
                assert(ext_overlap(extent(acc[j]), extent(c)));
            }
        } else {
            proof {
                assert(!placed_extents(m).dom().contains((lo, hi)));
                assert forall|j: int| 0 <= j < acc.len() implies !ext_overlap(extent(#[trigger] acc[j]), extent(c)) by {
                    let e = extent(acc[j]);
                    let k = (e.0 as i128, e.1 as i128);
                    assert(extent(acc[j]) == (k.0 as int, k.1 as int));
                    assert(placed_extents(m).dom().contains(k));
                }
            }
            placed_insert(&mut m, lo, hi, c.1);
            out.push((c.1, c.0));
            proof {
                let old_acc = acc;
                acc = acc.push(c);
                assert(out@ =~= positions_of(acc));
                assert forall|k: Extent| #[trigger] placed_extents(m).dom().contains(k) implies exists|j: int| 0 <= j < acc.len() && extent(#[trigger] acc[j]) == (k.0 as int, k.1 as int) by {
                    if k == (lo, hi) {
                        assert(extent(acc[old_acc.len() as int]) == (k.0 as int, k.1 as int));
                    } else {
                        let j = choose|j: int| 0 <= j < old_acc.len() && extent(#[trigger] old_acc[j]) == (k.0 as int, k.1 as int);
                        assert(acc[j] == old_acc[j]);
                    }
                }
                assert forall|k: Extent| (exists|j: int| 0 <= j < acc.len() && extent(#[trigger] acc[j]) == (k.0 as int, k.1 as int)) implies #[trigger] placed_extents(m).dom().contains(k) by {
                    let j = choose|j: int| 0 <= j < acc.len() && extent(#[trigger] acc[j]) == (k.0 as int, k.1 as int);
                    if j < old_acc.len() {
                        assert(old_acc[j] == acc[j]);
                    }
                }
            }
        }
        i = i + 1;
    }
    assert(cs@.take(cs@.len() as int) =~= cs@);
    out
}

/// Places the candidates: ordered by target and then id, accepted by first fit.
pub fn place_labels(cs: &Vec<Candidate>) -> (r: Vec<(usize, i64)>)
    requires
        cs@.len() < 4294967295,
    ensures
        r@ == placed(cs@),
{
    let ordered = order_candidates(cs);
    proof {
        lemma_placement_order_len(cs@);
    }
    first_fit_exec(&ordered)
}

/// No two accepted labels overlap: the extents that first fit accepts are
/// pairwise disjoint.
pub proof fn lemma_first_fit_disjoint(cs: Seq<Candidate>)
    ensures
        forall|i: int, j: int|
            0 <= i < j < first_fit(cs).len() ==> !ext_overlap(
                extent(#[trigger] first_fit(cs)[i]),
                extent(#[trigger] first_fit(cs)[j]),
            ),
    decreases cs.len(),
{
    if cs.len() > 0 {
        let pre = cs.drop_last();
        lemma_first_fit_disjoint(pre);
        let acc = first_fit(pre);
        let res = first_fit(cs);
        let c = cs.last();
        assert forall|i: int, j: int| 0 <= i < j < res.len() implies !ext_overlap(
            extent(#[trigger] res[i]),
            extent(#[trigger] res[j]),
        ) by {
            if j < acc.len() {
                assert(res[i] == acc[i] && res[j] == acc[j]);
            } else {
                assert(res == acc.push(c));
                assert(res[i] == acc[i] && res[j] == c);
                assert(!ext_overlap(extent(acc[i]), extent(c)));
            }
        }
    }
}

/// Every candidate that first fit turns away overlaps one it accepted, and
/// every accepted one is a candidate.
pub proof fn lemma_first_fit_rejects_only_overlaps(cs: Seq<Candidate>)
    ensures
        forall|i: int|
            0 <= i < cs.len() ==> (first_fit(cs).contains(#[trigger] cs[i]) || exists|j: int|
                0 <= j < first_fit(cs).len() && ext_overlap(extent(#[trigger] first_fit(cs)[j]), extent(cs[i]))),
        forall|j: int| 0 <= j < first_fit(cs).len() ==> cs.contains(#[trigger] first_fit(cs)[j]),
    decreases cs.len(),
{
    if cs.len() > 0 {
        let pre = cs.drop_last();
        lemma_first_fit_rejects_only_overlaps(pre);
        let acc = first_fit(pre);
        let res = first_fit(cs);
        assert forall|i: int|
            0 <= i < cs.len() implies (res.contains(#[trigger] cs[i]) || exists|j: int|
                0 <= j < res.len() && ext_overlap(extent(#[trigger] res[j]), extent(cs[i]))) by {
            if i < pre.len() {
                assert(pre[i] == cs[i]);
                if acc.contains(cs[i]) {
                    let k = choose|k: int| 0 <= k < acc.len() && acc[k] == cs[i];
                    assert(res[k] == acc[k]);
                } else {
                    let j = choose|j: int| 0 <= j < acc.len() && ext_overlap(extent(#[trigger] acc[j]), extent(pre[i]));
                    assert(res[j] == acc[j]);
                }
            } else {
                if res.len() > acc.len() {
                    assert(res[acc.len() as int] == cs[i]);
                } else {
                    let j = choose|j: int| 0 <= j < acc.len() && ext_overlap(extent(#[trigger] acc[j]), extent(cs.last()));
                    assert(res[j] == acc[j]);
                }
            }
        }
        assert forall|j: int| 0 <= j < res.len() implies cs.contains(#[trigger] res[j]) by {
            if j < acc.len() {
                assert(res[j] == acc[j]);
                let k = choose|k: int| 0 <= k < pre.len() && pre[k] == acc[j];
                assert(cs[k] == pre[k]);
            } else {
                assert(cs[cs.len() - 1] == res[j]);
            }
        }
    }
}

proof fn lemma_ins_pos_split(s: Seq<Candidate>, c: Candidate, k: int)
    requires
        0 <= k <= s.len(),
    ensures
        forall|m: int| k <= m < ins_pos(s, c, k) ==> !cand_lt(c, #[trigger] s[m]),
        ins_pos(s, c, k) < s.len() ==> cand_lt(c, s[ins_pos(s, c, k)]),
    decreases s.len() - k,
{
    if k < s.len() && !cand_lt(c, s[k]) {
        lemma_ins_pos_split(s, c, k + 1);
    }
}

/// `s` ascends by target and then id.
pub open spec fn in_placement_order(s: Seq<Candidate>) -> bool {
    forall|i: int, j: int| 0 <= i < j < s.len() ==> !cand_lt(#[trigger] s[j], #[trigger] s[i])
}

/// Placement considers candidates by ascending target, ties broken by id.
pub proof fn lemma_placement_order_sorted(cs: Seq<Candidate>)
    ensures
        in_placement_order(placement_order(cs)),
        placement_order(cs).to_multiset() == cs.to_multiset(),
    decreases cs.len(),
{
    if cs.len() > 0 {
        let pre = cs.drop_last();
        let c = cs.last();
        lemma_placement_order_sorted(pre);
        let s = placement_order(pre);
        let p = ins_pos(s, c, 0);
        lemma_ins_pos_bounds(s, c, 0);
        lemma_ins_pos_split(s, c, 0);
        let t = s.insert(p, c);
        assert forall|i: int, j: int| 0 <= i < j < t.len() implies !cand_lt(#[trigger] t[j], #[trigger] t[i]) by {
            if j < p {
                assert(t[i] == s[i] && t[j] == s[j]);
            } else if j == p {
                assert(t[i] == s[i]);
            } else if i < p {
                assert(t[i] == s[i] && t[j] == s[j - 1]);
                assert(!cand_lt(c, s[i]));
                assert(cand_lt(c, s[p]));
                if p < j - 1 {
                    assert(!cand_lt(s[j - 1], s[p]));
                }
            } else if i == p {
                assert(t[j] == s[j - 1]);
                assert(cand_lt(c, s[p]));
                if p < j - 1 {
                    assert(!cand_lt(s[j - 1], s[p]));
                }
            } else {
                assert(t[i] == s[i - 1] && t[j] == s[j - 1]);
            }
        }
        assert(cs =~= pre.push(c));
        assert(t.to_multiset() == s.to_multiset().insert(c)) by {
            vstd::seq_lib::to_multiset_insert(s, p, c);
        }
        assert(pre.push(c).to_multiset() == pre.to_multiset().insert(c)) by {
            vstd::seq_lib::to_multiset_build(pre, c);
        }
        assert(placement_order(cs) == t);
    } else {
        assert(placement_order(cs) =~= cs);
    }
}

/// Placement is a function of its input: the same candidates in the same
/// order, with the same widths, always give the same accepted labels at the
/// same positions, and turn away the same ones.
pub proof fn lemma_placement_deterministic(a: Seq<Candidate>, b: Seq<Candidate>)
    requires
        a == b,
    ensures
        placed(a) == placed(b),
        first_fit(placement_order(a)) == first_fit(placement_order(b)),
{
}

/// No annotation id occurs twice among the candidates of `m`.
pub open spec fn ids_unique(m: Multiset<Candidate>) -> bool {
    &&& forall|e: Candidate| #[trigger] m.count(e) <= 1
    &&& forall|e1: Candidate, e2: Candidate| #[trigger] m.count(e1) > 0 && #[trigger] m.count(e2) > 0 && e1.1 == e2.1 ==> e1 == e2
}

proof fn lemma_sorted_unique(s: Seq<Candidate>, t: Seq<Candidate>)
    requires
        in_placement_order(s),
        in_placement_order(t),
        s.to_multiset() == t.to_multiset(),
        ids_unique(s.to_multiset()),
    ensures
        s == t,
    decreases s.len(),
{
    s.to_multiset_ensures();
    t.to_multiset_ensures();
    if s.len() == 0 {
        assert(t.len() == 0);
        assert(s =~= t);
    } else {
        let m = s.to_multiset();
        let s0 = s[0];
        let t0 = t[0];
        assert(s.contains(s0));
        assert(t.contains(t0));
        assert(m.count(s0) > 0);
        assert(m.count(t0) > 0);
        assert(t.contains(s0));
        assert(s.contains(t0));
        let k = choose|k: int| 0 <= k < t.len() && t[k] == s0;
        let j = choose|j: int| 0 <= j < s.len() && s[j] == t0;
        if k > 0 {
            assert(!cand_lt(t[k], t[0]));
        }
        if j > 0 {
            assert(!cand_lt(s[j], s[0]));
        }
        assert(s0.1 == t0.1);
        assert(s0 == t0);
        let sr = s.drop_first();
        let tr = t.drop_first();
        assert(s.remove(0) =~= sr);
        assert(t.remove(0) =~= tr);
        vstd::seq_lib::to_multiset_remove(s, 0);
        vstd::seq_lib::to_multiset_remove(t, 0);
        let mr = sr.to_multiset();
        assert(mr == m.remove(s0));
        assert forall|e: Candidate| #[trigger] mr.count(e) <= 1 by {
            assert(mr.count(e) <= m.count(e));
        }
        assert forall|e1: Candidate, e2: Candidate| #[trigger] mr.count(e1) > 0 && #[trigger] mr.count(e2) > 0 && e1.1 == e2.1 implies e1 == e2 by {
            assert(mr.count(e1) <= m.count(e1));
            assert(mr.count(e2) <= m.count(e2));
        }
        assert forall|a: int, b: int| 0 <= a < b < sr.len() implies !cand_lt(#[trigger] sr[b], #[trigger] sr[a]) by {
            assert(sr[a] == s[a + 1] && sr[b] == s[b + 1]);
        }
        assert forall|a: int, b: int| 0 <= a < b < tr.len() implies !cand_lt(#[trigger] tr[b], #[trigger] tr[a]) by {
            assert(tr[a] == t[a + 1] && tr[b] == t[b + 1]);
        }
        lemma_sorted_unique(sr, tr);
        assert(s =~= t) by {
            assert forall|i: int| 0 <= i < s.len() implies s[i] == t[i] by {
                if i > 0 {
                    assert(s[i] == sr[i - 1] && t[i] == tr[i - 1]);
                }
            }
        }
    }
}

/// Placement depends on the set of candidates alone: two inputs holding the
/// same candidates, with no annotation id twice, in whatever order, give
/// the same placement order and the same accepted labels at the same
/// positions.
pub proof fn lemma_placement_order_independent(a: Seq<Candidate>, b: Seq<Candidate>)
    requires
        a.to_multiset() == b.to_multiset(),
        ids_unique(a.to_multiset()),
    ensures
        placement_order(a) == placement_order(b),
        placed(a) == placed(b),
{
    lemma_placement_order_sorted(a);
    lemma_placement_order_sorted(b);
    lemma_sorted_unique(placement_order(a), placement_order(b));
}

} // verus!
