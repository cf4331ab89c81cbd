//! Pangenome views, screen spans and the linear maps between them.

use vstd::prelude::*;

verus! {

/// Largest pangenome coordinate the library accepts; sums of two
/// coordinates stay within `i64`.
pub const MAX_COORD: u64 = 4611686018427387903;

/// A half-open window `[start, end)` over the pangenome axis.
#[derive(Clone, Copy, Debug, PartialEq, Eq, Structural)]
pub struct View1D {
    pub start: u64,
    pub end: u64,
}

/// The horizontal extent `[left, right]` of the screen area a view is drawn into.
#[derive(Clone, Copy, Debug, PartialEq, Eq, Structural)]
pub struct ScreenSpan {
    pub left: i64,
    pub right: i64,
}

impl View1D {
    pub open spec fn wf(self) -> bool {
        self.start < self.end && self.end <= MAX_COORD
    }

    pub open spec fn len(self) -> int {
        self.end - self.start
    }
}

impl ScreenSpan {
    pub open spec fn wf(self) -> bool {
        self.left <= self.right
    }

    pub open spec fn width(self) -> int {
        self.right - self.left
    }
}

/// Screen position of pangenome coordinate `x`: the linear map sending
/// `view.start` to `screen.left` and `view.end` to `screen.right`, rounded down.
pub open spec fn to_screen(x: int, view: View1D, screen: ScreenSpan) -> int {
    screen.left + (x - view.start) * screen.width() / view.len()
}

/// Half-open ranges `[l, r)` and `[view.start, view.end)` share a point.
pub open spec fn overlaps_view(l: int, r: int, view: View1D) -> bool {
    l < view.end && view.start < r
}

pub open spec fn max_int(a: int, b: int) -> int {
    if a >= b { a } else { b }
}

pub open spec fn min_int(a: int, b: int) -> int {
    if a <= b { a } else { b }
}

/// The anchor interval of range `[l, r)`: its part inside the view, mapped
/// to screen space as a closed interval; `None` when it misses the view.
pub open spec fn anchor_of(l: int, r: int, view: View1D, screen: ScreenSpan) -> Option<(int, int)> {
    if overlaps_view(l, r, view) {
        Some(
            (
                to_screen(max_int(l, view.start as int), view, screen),
                to_screen(min_int(r, view.end as int), view, screen),
            ),
        )
    } else {
        None
    }
}

proof fn lemma_to_screen_bounds(x: int, view: View1D, screen: ScreenSpan)
    requires
        view.wf(),
        screen.wf(),
        view.start <= x <= view.end,
    ensures
        screen.left <= to_screen(x, view, screen) <= screen.right,
{
    let d = x - view.start;
    let w = screen.width();
    let n = view.len();
    assert(0 <= d * w <= n * w) by (nonlinear_arith)
        requires
            0 <= d <= n,
            0 <= w,
    ;
    vstd::arithmetic::div_mod::lemma_div_is_ordered(d * w, n * w, n);
    vstd::arithmetic::div_mod::lemma_div_by_multiple(w, n);
    vstd::arithmetic::div_mod::lemma_div_pos_is_pos(d * w, n);
    assert(n * w == w * n) by (nonlinear_arith);
}

/// Maps pangenome coordinate `x`, inside the view, to screen space.
pub fn screen_x(x: u64, view: View1D, screen: ScreenSpan) -> (r: i64)
    requires
        view.wf(),
        screen.wf(),
        view.start <= x <= view.end,
    ensures
        r == to_screen(x as int, view, screen),
        screen.left <= r <= screen.right,
{
    proof {
        lemma_to_screen_bounds(x as int, view, screen);
    }
    let w: u128 = (screen.right as i128 - screen.left as i128) as u128;
    let d: u128 = (x - view.start) as u128;
    let n: u128 = (view.end - view.start) as u128;
    assert(d * w <= 0x3fff_ffff_ffff_ffff_u128 * 0xffff_ffff_ffff_ffff_u128) by (nonlinear_arith)
        requires
            d <= 0x3fff_ffff_ffff_ffff_u128,
            w <= 0xffff_ffff_ffff_ffff_u128,
    ;
    let q: u128 = (d * w) / n;
    (screen.left as i128 + q as i128) as i64
}

/// The anchor interval of the annotation range `[l, r)` under `view` and `screen`.
pub fn anchor_interval(view: View1D, l: u64, r: u64, screen: ScreenSpan) -> (res: Option<(i64, i64)>)
    requires
        l < r,
        view.wf(),
        screen.wf(),
    ensures
        match res {
            Some(p) => anchor_of(l as int, r as int, view, screen) == Some((p.0 as int, p.1 as int)),
            None => anchor_of(l as int, r as int, view, screen) is None,
        },
        res matches Some(p) ==> screen.left <= p.0 <= p.1 <= screen.right,
{
    if !(l < view.end && view.start < r) {
        return None;
    }
    let left = if l >= view.start { l } else { view.start };
    let right = if r <= view.end { r } else { view.end };
    let a = screen_x(left, view, screen);
    let b = screen_x(right, view, screen);
    proof {
        lemma_to_screen_monotone(left as int, right as int, view, screen);
    }
    Some((a, b))
}

proof fn lemma_to_screen_monotone(x: int, y: int, view: View1D, screen: ScreenSpan)
    requires
        view.wf(),
        screen.wf(),
        x <= y,
    ensures
        to_screen(x, view, screen) <= to_screen(y, view, screen),
{
    let w = screen.width();
    assert((x - view.start) * w <= (y - view.start) * w) by (nonlinear_arith)
        requires
            x <= y,
            0 <= w,
    ;
    vstd::arithmetic::div_mod::lemma_div_is_ordered(
        (x - view.start) * w,
        (y - view.start) * w,
        view.len(),
    );
}

/// Where a label at screen position `x` under view `prev` belongs under view
/// `cur`: the affine map that keeps every pangenome coordinate at its place,
/// rounded down and saturated to the `i64` range.
pub open spec fn shifted_x(x: int, prev: View1D, cur: View1D, screen: ScreenSpan) -> int {
    clamp_i64(
        screen.left + ((x - screen.left) * prev.len() + (prev.start - cur.start) * screen.width())
            / cur.len(),
    )
}

pub open spec fn clamp_i64(v: int) -> int {
    if v < i64::MIN {
        i64::MIN as int
    } else if v > i64::MAX {
        i64::MAX as int
    } else {
        v
    }
}

/// `num / d` rounded down, for `d > 0`.
fn floor_div(num: i128, d: u128) -> (q: i128)
    requires
        d > 0,
        d <= 0x7fff_ffff_ffff_ffff_u128,
        num > i128::MIN,
    ensures
        q == num as int / d as int,
        num >= 0 ==> 0 <= q <= num,
        num < 0 ==> num <= q < 0,
{
    if num >= 0 {
        let q = (num as u128) / d;
        proof {
            vstd::arithmetic::div_mod::lemma_div_is_ordered_by_denominator(num as int, 1, d as int);
        }
        q as i128
    } else {
        let m: u128 = (-num) as u128;
        let t: u128 = m + (d - 1);
        let q: u128 = t / d;
        let r: u128 = t % d;
        proof {
            vstd::arithmetic::div_mod::lemma_fundamental_div_mod(t as int, d as int);
            vstd::arithmetic::div_mod::lemma_div_is_ordered_by_denominator(t as int, 1, d as int);
            assert(num as int == (-(q as int)) * d as int + (d as int - 1 - r as int)) by (nonlinear_arith)
                requires
                    t as int == q as int * d as int + r as int,
                    t as int == -(num as int) + d as int - 1,
            ;
            assert(1 <= q <= m) by (nonlinear_arith)
                requires
                    t as int == q as int * d as int + r as int,
                    t as int == m as int + d as int - 1,
                    0 <= r < d,
                    m >= 1,
                    d >= 1,
            ;
            vstd::arithmetic::div_mod::lemma_fundamental_div_mod_converse(
                num as int,
                d as int,
                -(q as int),
                d as int - 1 - r as int,
            );
        }
        -(q as i128)
    }
}

/// Moves screen position `x` from view `prev` to view `cur`, see `shifted_x`.
pub fn shift_x(x: i64, prev: View1D, cur: View1D, screen: ScreenSpan) -> (r: i64)
    requires
        prev.wf(),
        cur.wf(),
        screen.wf(),
    ensures
        r == shifted_x(x as int, prev, cur, screen),
{
    let w: i128 = screen.right as i128 - screen.left as i128;
    let dx: i128 = x as i128 - screen.left as i128;
    let plen: i128 = (prev.end - prev.start) as i128;
    let ds: i128 = prev.start as i128 - cur.start as i128;
    proof {
        assert(-0xffff_ffff_ffff_ffffint * 0x3fff_ffff_ffff_ffffint <= dx * plen <= 0xffff_ffff_ffff_ffffint * 0x3fff_ffff_ffff_ffffint) by (nonlinear_arith)
            requires
                -0xffff_ffff_ffff_ffffint <= dx <= 0xffff_ffff_ffff_ffffint,
                0 < plen <= 0x3fff_ffff_ffff_ffffint,
        ;
        assert(-0xffff_ffff_ffff_ffffint * 0x3fff_ffff_ffff_ffffint <= ds * w <= 0xffff_ffff_ffff_ffffint * 0x3fff_ffff_ffff_ffffint) by (nonlinear_arith)
            requires
                -0x3fff_ffff_ffff_ffffint <= ds <= 0x3fff_ffff_ffff_ffffint,
                0 <= w <= 0xffff_ffff_ffff_ffffint,
        ;
    }
    let num: i128 = dx * plen + ds * w;
    let q: i128 = floor_div(num, (cur.end - cur.start) as u128);
    let v: i128 = screen.left as i128 + q;
    if v < i64::MIN as i128 {
        i64::MIN
    } else if v > i64::MAX as i128 {
        i64::MAX
    } else {
        v as i64
    }
}

/// The anchor interval of a well-formed range that meets the view is a
/// closed interval inside the screen span.
pub proof fn lemma_anchor_ordered(l: int, r: int, view: View1D, screen: ScreenSpan)
    requires
        l < r,
        view.wf(),
        screen.wf(),
        overlaps_view(l, r, view),
    ensures
        screen.left <= anchor_of(l, r, view, screen)->Some_0.0,
        anchor_of(l, r, view, screen)->Some_0.0 <= anchor_of(l, r, view, screen)->Some_0.1,
        anchor_of(l, r, view, screen)->Some_0.1 <= screen.right,
{
    let a = max_int(l, view.start as int);
    let b = min_int(r, view.end as int);
    lemma_to_screen_bounds(a, view, screen);
    lemma_to_screen_bounds(b, view, screen);
    lemma_to_screen_monotone(a, b, view, screen);
}

} // verus!
