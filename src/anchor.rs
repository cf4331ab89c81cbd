//! Choosing and keeping the screen-space anchor target of an annotation.

use rand::rngs::StdRng;
use rand::Rng;
use rand::SeedableRng;
use vstd::prelude::*;

verus! {

/// A closed screen-space interval `[lo, hi]` a label may be anchored in.
pub type Span = (i64, i64);

pub open spec fn spans_wf(rs: Seq<Span>) -> bool {
    forall|i: int| 0 <= i < rs.len() ==> #[trigger] rs[i].0 <= rs[i].1
}

pub open spec fn in_span(t: int, r: Span) -> bool {
    r.0 <= t <= r.1
}

pub open spec fn covered(t: int, rs: Seq<Span>) -> bool {
    exists|i: int| 0 <= i < rs.len() && in_span(t, #[trigger] rs[i])
}

pub open spec fn dist(a: int, b: int) -> int {
    if a >= b {
        a - b
    } else {
        b - a
    }
}

/// The endpoint of `r` closest to a point `t` outside it.
pub open spec fn nearest_end(t: int, r: Span) -> int {
    if t < r.0 {
        r.0 as int
    } else {
        r.1 as int
    }
}

/// The endpoint closest to `t` among all spans; of equally close ones, the
/// one of the earliest span.
pub open spec fn snap_target(t: int, rs: Seq<Span>) -> int
    decreases rs.len(),
{
    if rs.len() == 0 {
        t
    } else if rs.len() == 1 {
        nearest_end(t, rs[0])
    } else {
        let p = snap_target(t, rs.drop_last());
        let c = nearest_end(t, rs.last());
        if dist(c, t) < dist(p, t) {
            c
        } else {
            p
        }
    }
}

/// An existing target stays where it is while some span holds it, and moves
/// to the nearest span endpoint otherwise.
pub open spec fn constrained_target(t: int, rs: Seq<Span>) -> int {
    if covered(t, rs) {
        t
    } else {
        snap_target(t, rs)
    }
}

pub open spec fn span_len(r: Span) -> int {
    r.1 - r.0
}

/// Sum of the lengths of the spans.
pub open spec fn total_len(rs: Seq<Span>) -> int
    decreases rs.len(),
{
    if rs.len() == 0 {
        0
    } else {
        total_len(rs.drop_last()) + span_len(rs.last())
    }
}

/// The point at offset `d` when the spans from index `k` on are laid end to
/// end; the start of the first span when `d` runs past them all.
pub open spec fn weighted_point(rs: Seq<Span>, k: int, d: int) -> int
    decreases rs.len() - k,
{
    if k < 0 || k >= rs.len() {
        rs[0].0 as int
    } else if d < span_len(rs[k]) {
        rs[k].0 + d
    } else {
        weighted_point(rs, k + 1, d - span_len(rs[k]))
    }
}

/// The target an annotation gets: an existing one constrained to the spans,
/// or for a new one the point that the uniform draw `d` from
/// `[0, total_len(rs))` selects.
pub open spec fn chosen_target(old: Option<i64>, rs: Seq<Span>, d: int) -> int {
    match old {
        Some(t) => constrained_target(t as int, rs),
        None => weighted_point(rs, 0, d),
    }
}

/// Keeps `tgt` if a span holds it; otherwise moves it to the closest span endpoint.
pub fn constrain_target(tgt: i64, rs: &Vec<Span>) -> (r: i64)
    requires
        rs@.len() > 0,
        spans_wf(rs@),
    ensures
        r == constrained_target(tgt as int, rs@),
        covered(r as int, rs@),
{
    let mut best: i64 = tgt;
    let mut best_d: u128 = 0;
    let mut i: usize = 0;
    while i < rs.len()
        invariant
            0 <= i <= rs@.len(),
            rs@.len() > 0,
            spans_wf(rs@),
            !covered(tgt as int, rs@.take(i as int)),
            i > 0 ==> best == snap_target(tgt as int, rs@.take(i as int)),
            i > 0 ==> best_d == dist(best as int, tgt as int),
            i > 0 ==> covered(best as int, rs@),
        decreases rs@.len() - i,
    {
        let (lo, hi) = rs[i];
        if lo <= tgt && tgt <= hi {
            assert(in_span(tgt as int, rs@[i as int]));
            return tgt;
        }
        let c: i64 = if tgt < lo { lo } else { hi };
        let cd: u128 = if c >= tgt {
            (c as i128 - tgt as i128) as u128
        } else {
            (tgt as i128 - c as i128) as u128
        };
        proof {
            let pre = rs@.take(i as int + 1);
            assert(pre.drop_last() =~= rs@.take(i as int));
            assert(pre.last() == rs@[i as int]);
            assert(in_span(c as int, rs@[i as int]));
            assert forall|j: int| 0 <= j < pre.len() implies !in_span(tgt as int, #[trigger] pre[j]) by {
                if j < i {
                    assert(rs@.take(i as int)[j] == pre[j]);
                }
            }
        }
        if i == 0 || cd < best_d {
            best = c;
            best_d = cd;
        }
        i = i + 1;
    }
    assert(rs@.take(rs@.len() as int) =~= rs@);
    best
}

/// Sum of the span lengths.
pub fn total_weight(rs: &Vec<Span>) -> (r: u128)
    requires
        spans_wf(rs@),
    ensures
        r == total_len(rs@),
{
    let mut acc: u128 = 0;
    let mut i: usize = 0;
    while i < rs.len()
        invariant
            0 <= i <= rs@.len(),
            spans_wf(rs@),
            acc == total_len(rs@.take(i as int)),
            acc <= i * 0xffff_ffff_ffff_ffffint,
        decreases rs@.len() - i,
    {
        let (lo, hi) = rs[i];
        let len: u128 = (hi as i128 - lo as i128) as u128;
        proof {
            assert(rs@[i as int].0 <= rs@[i as int].1);
            assert(rs@.take(i as int + 1).drop_last() =~= rs@.take(i as int));
            assert(acc + len <= (i + 1) * 0xffff_ffff_ffff_ffffint) by (nonlinear_arith)
                requires
                    acc <= i * 0xffff_ffff_ffff_ffffint,
                    len <= 0xffff_ffff_ffff_ffffint,
            ;
            assert((i + 1) * 0xffff_ffff_ffff_ffffint <= 0xffff_ffff_ffff_ffffint * 0xffff_ffff_ffff_ffffint) by (nonlinear_arith)
                requires
                    i < 0xffff_ffff_ffff_ffffint,
            ;
        }
        acc = acc + len;
        i = i + 1;
    }
    assert(rs@.take(rs@.len() as int) =~= rs@);
    acc
}

proof fn lemma_total_len_take(rs: Seq<Span>, i: int)
    requires
        0 <= i < rs.len(),
    ensures
        total_len(rs.take(i + 1)) == total_len(rs.take(i)) + span_len(rs[i]),
{
    assert(rs.take(i + 1).drop_last() =~= rs.take(i));
}

proof fn lemma_total_len_full(rs: Seq<Span>)
    ensures
        total_len(rs.take(rs.len() as int)) == total_len(rs),
{
    assert(rs.take(rs.len() as int) =~= rs);
}

/// The point that draw `d` selects: spans are laid end to end and `d` is an
/// offset into the result, so each span is chosen with probability
/// proportional to its length and each of its points alike.
pub fn pick_weighted(rs: &Vec<Span>, d: u128) -> (r: i64)
    requires
        rs@.len() > 0,
        spans_wf(rs@),
    ensures
        r == weighted_point(rs@, 0, d as int),
        d < total_len(rs@) ==> covered(r as int, rs@),
{
    let mut acc: u128 = 0;
    let mut i: usize = 0;
    while i < rs.len()
        invariant
            0 <= i <= rs@.len(),
            rs@.len() > 0,
            spans_wf(rs@),
            acc == total_len(rs@.take(i as int)),
            acc <= d,
            weighted_point(rs@, 0, d as int) == weighted_point(rs@, i as int, d - acc),
        decreases rs@.len() - i,
    {
        let (lo, hi) = rs[i];
        let len: u128 = (hi as i128 - lo as i128) as u128;
        proof {
            assert(rs@[i as int].0 <= rs@[i as int].1);
            lemma_total_len_take(rs@, i as int);
        }
        if d - acc < len {
            let r: i64 = (lo as i128 + (d - acc) as i128) as i64;
            assert(in_span(r as int, rs@[i as int]));
            return r;
        }
        acc = acc + len;
        i = i + 1;
    }
    proof {
        lemma_total_len_full(rs@);
        assert(in_span(rs@[0].0 as int, rs@[0]));
    }
    rs[0].0
}

/// The target of an annotation whose visible spans are `rs`: `old`
/// constrained to them, or the point that draw `d` selects when it has none.
pub fn choose_target(old: Option<i64>, rs: &Vec<Span>, d: u128) -> (r: i64)
    requires
        rs@.len() > 0,
        spans_wf(rs@),
    ensures
        r == chosen_target(old, rs@, d as int),
{
    match old {
        Some(t) => constrain_target(t, rs),
        None => pick_weighted(rs, d),
    }
}

/// The target of an annotation whose visible spans are `rs`: `old`
/// constrained to them, or for a new annotation a point drawn from `rng`
/// with each span weighted by its length.
pub fn select_target(old: Option<i64>, rs: &Vec<Span>, rng: &mut StdRng) -> (r: i64)
    requires
        rs@.len() > 0,
        spans_wf(rs@),
    ensures
        covered(r as int, rs@),
        exists|d: int| 0 <= d && (d == 0 || d < total_len(rs@)) && r == chosen_target(old, rs@, d),
{
    let d: u128 = match old {
        Some(_) => 0,
        None => {
            let tot = total_weight(rs);
            if tot > 0 {
                draw_below(rng, tot)
            } else {
                0
            }
        },
    };
    let t = choose_target(old, rs, d);
    proof {
        if old is None {
            lemma_pick_covered(rs@, d as int);
        } else {
            lemma_constrained_covered(old->Some_0 as int, rs@);
        }
    }
    t
}

/// rand's standard seedable generator, carried through the layout state.
#[verifier::external_type_specification]
#[verifier::external_body]
pub struct ExStdRng(StdRng);

/// Relies on rand's `SeedableRng::seed_from_u64` for `StdRng`: a generator
/// whose output is fixed by the seed.
#[verifier::external_body]
pub(crate) fn seeded_rng(seed: u64) -> StdRng {
    StdRng::seed_from_u64(seed)
}

/// Relies on rand's `Rng::gen_range` over `0..n`: a value below `n`; it
/// panics on an empty range, which `n > 0` rules out.
#[verifier::external_body]
pub(crate) fn draw_below(rng: &mut StdRng, n: u128) -> (r: u128)
    requires
        n > 0,
    ensures
        r < n,
{
    rng.gen_range(0..n)
}

/// An existing target, constrained, lies in some span.
pub proof fn lemma_constrained_covered(t: int, rs: Seq<Span>)
    requires
        rs.len() > 0,
        spans_wf(rs),
    ensures
        covered(constrained_target(t, rs), rs),
{
    if !covered(t, rs) {
        lemma_snap_covered(t, rs);
    }
}

proof fn lemma_snap_covered(t: int, rs: Seq<Span>)
    requires
        rs.len() > 0,
        spans_wf(rs),
    ensures
        covered(snap_target(t, rs), rs),
    decreases rs.len(),
{
    if rs.len() == 1 {
        assert(in_span(nearest_end(t, rs[0]), rs[0]));
    } else {
        let pre = rs.drop_last();
        lemma_snap_covered(t, pre);
        let p = snap_target(t, pre);
        let i = choose|i: int| 0 <= i < pre.len() && in_span(p, #[trigger] pre[i]);
        assert(rs[i] == pre[i]);
        assert(in_span(nearest_end(t, rs.last()), rs[rs.len() - 1]));
    }
}

/// A draw below the total length, or a zero draw, selects a point of some span.
pub proof fn lemma_pick_covered(rs: Seq<Span>, d: int)
    requires
        rs.len() > 0,
        spans_wf(rs),
        0 <= d,
        d == 0 || d < total_len(rs),
    ensures
        covered(weighted_point(rs, 0, d), rs),
{
    lemma_weighted_point_covered(rs, 0, d);
}

proof fn lemma_weighted_point_covered(rs: Seq<Span>, k: int, d: int)
    requires
        rs.len() > 0,
        spans_wf(rs),
        0 <= k <= rs.len(),
        0 <= d,
    ensures
        covered(weighted_point(rs, k, d), rs),
    decreases rs.len() - k,
{
    assert(in_span(rs[0].0 as int, rs[0]));
    if k < rs.len() {
        if d < span_len(rs[k]) {
            assert(in_span(rs[k].0 + d, rs[k]));
        } else {
            lemma_weighted_point_covered(rs, k + 1, d - span_len(rs[k]));
        }
    }
}

proof fn lemma_total_len_mono(rs: Seq<Span>, j: int, k: int)
    requires
        spans_wf(rs),
        0 <= j <= k <= rs.len(),
    ensures
        total_len(rs.take(j)) <= total_len(rs.take(k)),
    decreases k,
{
    if j < k {
        lemma_total_len_mono(rs, j, k - 1);
        lemma_total_len_take(rs, k - 1);
    }
}

proof fn lemma_weighted_point_skip(rs: Seq<Span>, j: int, k: int, d: int)
    requires
        spans_wf(rs),
        0 <= j <= k < rs.len(),
        total_len(rs.take(k)) <= d,
    ensures
        weighted_point(rs, j, d - total_len(rs.take(j))) == weighted_point(rs, k, d - total_len(rs.take(k))),
    decreases k - j,
{
    if j < k {
        lemma_total_len_take(rs, j);
        lemma_total_len_mono(rs, j + 1, k);
        lemma_weighted_point_skip(rs, j + 1, k, d);
    }
}

/// Weighted choice: with `P` the total length of the spans before span `k`,
/// exactly the draws in `[P, P + span_len(rs[k]))` select span `k`, each at
/// its own point. A draw uniform over `[0, total_len(rs))` thus lands in a
/// span with probability its share of the total length, and uniformly
/// within it.
pub proof fn lemma_weighted_draw_selects_span(rs: Seq<Span>, k: int, d: int)
    requires
        spans_wf(rs),
        0 <= k < rs.len(),
        total_len(rs.take(k)) <= d < total_len(rs.take(k)) + span_len(rs[k]),
    ensures
        weighted_point(rs, 0, d) == rs[k].0 + (d - total_len(rs.take(k))),
        in_span(weighted_point(rs, 0, d), rs[k]),
{
    assert(rs.take(0).len() == 0);
    lemma_weighted_point_skip(rs, 0, k, d);
}

} // verus!
