//! Pure geometry for the tiling layouts.
//!
//! Every layout is a total function from a window count and an area to a list
//! of rectangles. The area is first inset by the outer gap; splits are integer,
//! with any remainder spread over the leading segments. A master ratio is a
//! fixed-point fraction of [`RATIO_SCALE`], rounded half away from zero.

use vstd::prelude::*;

use crate::ipc::{Direction, LayoutKind, RATIO_SCALE, Rect, WindowGeometry, WindowId};

verus! {

/// Tunables shared by every layout.
#[derive(Debug, Clone, Copy, PartialEq, Eq, Structural)]
pub struct LayoutParams {
    /// Share of the area given to the master region, out of [`RATIO_SCALE`].
    pub master_ratio: u32,
    /// Number of windows placed in the master region.
    pub master_count: usize,
    /// Gap between adjacent tiles, in pixels.
    pub gaps_inner: i32,
    /// Gap between the tiles and the output edge, in pixels.
    pub gaps_outer: i32,
}

impl Default for LayoutParams {
    fn default() -> (r: Self)
        ensures
            r.master_ratio == 600000,
            r.master_count == 1,
            r.gaps_inner == 8,
            r.gaps_outer == 12,
    {
        LayoutParams { master_ratio: 600000, master_count: 1, gaps_inner: 8, gaps_outer: 12 }
    }
}

// ---------------------------------------------------------------------------
// Specification
// ---------------------------------------------------------------------------

/// A rectangle built from integer coordinates.
pub open spec fn rect_of(x: int, y: int, w: int, h: int) -> Rect {
    Rect { x: x as i32, y: y as i32, width: w as i32, height: h as i32 }
}

pub open spec fn max0(v: int) -> int {
    if v < 0 {
        0
    } else {
        v
    }
}

pub open spec fn min_int(a: int, b: int) -> int {
    if a < b {
        a
    } else {
        b
    }
}

pub open spec fn max_int(a: int, b: int) -> int {
    if a < b {
        b
    } else {
        a
    }
}

/// Positions from `start` across a length `len`, with `spread` pixels of
/// inner gaps that may run past the far edge, stay within 32 bits. A spiral
/// can add its gaps beyond the far edge one split at a time; the other
/// layouts reach past it only as far as the gaps outgrow the length.
pub open spec fn reach_ok(kind: LayoutKind, start: int, len: int, spread: int) -> bool {
    if kind == LayoutKind::Spiral {
        start + len + spread <= i32::MAX
    } else {
        start + max_int(len, spread) <= i32::MAX
    }
}

/// The inner gaps that may run past the far edge of `inner`: none for a
/// spiral whose every split has room, those of all `n` windows otherwise.
pub open spec fn spread_of(kind: LayoutKind, n: nat, inner: Rect, p: LayoutParams) -> int {
    if kind == LayoutKind::Spiral && spiral_room(0, n, inner, p) {
        0
    } else {
        n * p.gaps_inner
    }
}

/// The arrangements whose coordinates all stay within 32 bits and for which
/// the tiling laws hold: non-negative gaps, a ratio of at most one, and the
/// inset area, with the inner gaps that may run past it, within reach.
pub open spec fn arrange_fits(kind: LayoutKind, area: Rect, p: LayoutParams, n: nat) -> bool {
    let go = p.gaps_outer as int;
    let spread = spread_of(kind, n, inset_spec(area, go), p);
    &&& 0 <= p.gaps_inner
    &&& 0 <= go
    &&& p.master_ratio <= RATIO_SCALE
    &&& reach_ok(kind, area.x + go, max0(area.width - 2 * go), spread)
    &&& reach_ok(kind, area.y + go, max0(area.height - 2 * go), spread)
}

/// `r` shrunk inward by `by` on every side; sizes never drop below zero.
pub open spec fn inset_spec(r: Rect, by: int) -> Rect {
    rect_of(r.x + by, r.y + by, max0(r.width - 2 * by), max0(r.height - 2 * by))
}

/// The length left to share between `n` segments once `n - 1` gaps are taken.
pub open spec fn avail_of(total: int, n: int, gap: int) -> int {
    max0(total - gap * (n - 1))
}

/// Length of segment `i` when `total` is split into `n` parts: the even share,
/// plus one for each of the leading `remainder` segments.
pub open spec fn seg_len(total: int, n: int, gap: int, i: int) -> int {
    let a = avail_of(total, n, gap);
    a / n + (if i < a % n {
        1int
    } else {
        0int
    })
}

/// Offset of segment `i`: the lengths and gaps of the segments before it.
pub open spec fn seg_off(total: int, n: int, gap: int, i: int) -> int {
    let a = avail_of(total, n, gap);
    i * (a / n) + min_int(i, a % n) + i * gap
}

/// `area` cut into `n` rows, top to bottom, separated by `gap`.
pub open spec fn split_v_spec(area: Rect, n: nat, gap: int) -> Seq<Rect> {
    Seq::new(
        n,
        |i: int|
            rect_of(
                area.x as int,
                area.y + seg_off(area.height as int, n as int, gap, i),
                area.width as int,
                seg_len(area.height as int, n as int, gap, i),
            ),
    )
}

/// `area` cut into `n` columns, left to right, separated by `gap`.
pub open spec fn split_h_spec(area: Rect, n: nat, gap: int) -> Seq<Rect> {
    Seq::new(
        n,
        |i: int|
            rect_of(
                area.x + seg_off(area.width as int, n as int, gap, i),
                area.y as int,
                seg_len(area.width as int, n as int, gap, i),
                area.height as int,
            ),
    )
}

/// `avail * ratio / RATIO_SCALE`, rounded half away from zero (`avail >= 0`).
pub open spec fn ratio_share(avail: int, ratio: int) -> int {
    (avail * ratio + RATIO_SCALE / 2) / (RATIO_SCALE as int)
}

/// `area` cut into a left/right pair at `ratio`, with one gap between.
pub open spec fn split_columns_spec(area: Rect, ratio: int, gap: int) -> (Rect, Rect) {
    let avail = max0(area.width - gap);
    let left = ratio_share(avail, ratio);
    (
        rect_of(area.x as int, area.y as int, left, area.height as int),
        rect_of(area.x + left + gap, area.y as int, avail - left, area.height as int),
    )
}

/// `area` cut into a top/bottom pair at `ratio`, with one gap between.
pub open spec fn split_rows_spec(area: Rect, ratio: int, gap: int) -> (Rect, Rect) {
    let avail = max0(area.height - gap);
    let top = ratio_share(avail, ratio);
    (
        rect_of(area.x as int, area.y as int, area.width as int, top),
        rect_of(area.x as int, area.y + top + gap, area.width as int, avail - top),
    )
}

/// The master count clamped to `1..=n`.
pub open spec fn master_of(mc: int, n: int) -> int {
    if mc < 1 {
        1
    } else if mc > n {
        n
    } else {
        mc
    }
}

/// Master/stack: the master column holds the first windows, the stack column
/// the rest; a single column when every window is a master.
pub open spec fn tile_spec(n: nat, area: Rect, p: LayoutParams) -> Seq<Rect> {
    if n == 0 {
        Seq::empty()
    } else {
        let mc = master_of(p.master_count as int, n as int);
        if n <= mc {
            split_v_spec(area, n, p.gaps_inner as int)
        } else {
            let (m, s) = split_columns_spec(area, p.master_ratio as int, p.gaps_inner as int);
            split_v_spec(m, mc as nat, p.gaps_inner as int) + split_v_spec(
                s,
                (n - mc) as nat,
                p.gaps_inner as int,
            )
        }
    }
}

/// Monocle: every window covers the whole area.
pub open spec fn monocle_spec(n: nat, area: Rect) -> Seq<Rect> {
    Seq::new(n, |i: int| area)
}

/// The spiral from window `i` on: each window but the last takes the ratio
/// share of what remains, splitting by columns at even steps and by rows at
/// odd ones; the last window takes all that remains.
pub open spec fn spiral_from(i: nat, n: nat, area: Rect, p: LayoutParams) -> Seq<Rect>
    decreases n - i,
{
    if i >= n {
        Seq::empty()
    } else if i + 1 == n {
        seq![area]
    } else if i % 2 == 0 {
        let (head, rest) = split_columns_spec(area, p.master_ratio as int, p.gaps_inner as int);
        seq![head] + spiral_from(i + 1, n, rest, p)
    } else {
        let (head, rest) = split_rows_spec(area, p.master_ratio as int, p.gaps_inner as int);
        seq![head] + spiral_from(i + 1, n, rest, p)
    }
}

/// Every split of the spiral from window `i` on has room for the inner gap
/// along the side it cuts, so no later window is pushed past the far edge.
pub open spec fn spiral_room(i: nat, n: nat, area: Rect, p: LayoutParams) -> bool
    decreases n - i,
{
    if i + 1 >= n {
        true
    } else if i % 2 == 0 {
        let (head, rest) = split_columns_spec(area, p.master_ratio as int, p.gaps_inner as int);
        area.width >= p.gaps_inner && spiral_room(i + 1, n, rest, p)
    } else {
        let (head, rest) = split_rows_spec(area, p.master_ratio as int, p.gaps_inner as int);
        area.height >= p.gaps_inner && spiral_room(i + 1, n, rest, p)
    }
}

/// Spiral: a fibonacci split of the area.
pub open spec fn spiral_spec(n: nat, area: Rect, p: LayoutParams) -> Seq<Rect> {
    spiral_from(0, n, area, p)
}

/// Three-column: masters in a centered column, the stack split over a left
/// and a right column (the left takes the odd one). Degrades to master/stack
/// when the right column would be empty, and to one column with no stack.
pub open spec fn three_column_spec(n: nat, area: Rect, p: LayoutParams) -> Seq<Rect> {
    if n == 0 {
        Seq::empty()
    } else {
        let mc = master_of(p.master_count as int, n as int);
        if n <= mc {
            split_v_spec(area, n, p.gaps_inner as int)
        } else {
            let stack = n - mc;
            let left_count = (stack + 1) / 2;
            let right_count = stack - left_count;
            if right_count == 0 {
                tile_spec(n, area, p)
            } else {
                let gap = p.gaps_inner as int;
                let avail = max0(area.width - 2 * gap);
                let master_w = ratio_share(avail, p.master_ratio as int);
                let side_total = avail - master_w;
                let left_w = half(side_total);
                let right_w = side_total - left_w;
                let left_area = rect_of(area.x as int, area.y as int, left_w, area.height as int);
                let master_area = rect_of(
                    area.x + left_w + gap,
                    area.y as int,
                    master_w,
                    area.height as int,
                );
                let right_area = rect_of(
                    area.x + left_w + gap + master_w + gap,
                    area.y as int,
                    right_w,
                    area.height as int,
                );
                split_v_spec(master_area, mc as nat, gap) + split_v_spec(
                    left_area,
                    left_count as nat,
                    gap,
                ) + split_v_spec(right_area, right_count as nat, gap)
            }
        }
    }
}

/// The rectangles `kind` gives `n` windows inside the (already inset) `inner`.
pub open spec fn layout_rects(kind: LayoutKind, n: nat, inner: Rect, p: LayoutParams) -> Seq<
    Rect,
> {
    match kind {
        LayoutKind::Tile => tile_spec(n, inner, p),
        LayoutKind::Monocle => monocle_spec(n, inner),
        LayoutKind::Columns => split_h_spec(inner, n, p.gaps_inner as int),
        LayoutKind::Spiral => spiral_spec(n, inner, p),
        LayoutKind::ThreeColumn => three_column_spec(n, inner, p),
        LayoutKind::Floating => Seq::empty(),
    }
}

/// The geometry `arrange` gives: each window, in order, paired with the
/// rectangle its position receives under `kind`; none for floating.
pub open spec fn arrange_spec(
    kind: LayoutKind,
    windows: Seq<WindowId>,
    area: Rect,
    p: LayoutParams,
) -> Seq<WindowGeometry> {
    let rects = layout_rects(kind, windows.len(), inset_spec(area, p.gaps_outer as int), p);
    Seq::new(
        if rects.len() < windows.len() {
            rects.len()
        } else {
            windows.len()
        },
        |i: int| WindowGeometry { id: windows[i], rect: rects[i] },
    )
}

/// `a` and `b` do not overlap: one lies wholly left of, right of, above or
/// below the other.
pub open spec fn disjoint(a: Rect, b: Rect) -> bool {
    ||| a.x + a.width <= b.x
    ||| b.x + b.width <= a.x
    ||| a.y + a.height <= b.y
    ||| b.y + b.height <= a.y
}

/// No two rectangles of `rs` overlap.
pub open spec fn pairwise_disjoint(rs: Seq<Rect>) -> bool {
    forall|i: int, j: int|
        0 <= i < rs.len() && 0 <= j < rs.len() && i != j ==> disjoint(
            #[trigger] rs[i],
            #[trigger] rs[j],
        )
}

/// At least `gap` pixels lie between `a` and `b`, across or down.
pub open spec fn separated(a: Rect, b: Rect, gap: int) -> bool {
    ||| a.x + a.width + gap <= b.x
    ||| b.x + b.width + gap <= a.x
    ||| a.y + a.height + gap <= b.y
    ||| b.y + b.height + gap <= a.y
}

/// Every two rectangles of `rs` are at least `gap` apart.
pub open spec fn pairwise_separated(rs: Seq<Rect>, gap: int) -> bool {
    forall|i: int, j: int|
        0 <= i < rs.len() && 0 <= j < rs.len() && i != j ==> separated(
            #[trigger] rs[i],
            #[trigger] rs[j],
            gap,
        )
}

/// Rectangles at least a non-negative gap apart do not overlap.
pub proof fn lemma_separated_disjoint(rs: Seq<Rect>, gap: int)
    requires
        pairwise_separated(rs, gap),
        gap >= 0,
    ensures
        pairwise_disjoint(rs),
{
    assert forall|i: int, j: int|
        0 <= i < rs.len() && 0 <= j < rs.len() && i != j implies disjoint(
        #[trigger] rs[i],
        #[trigger] rs[j],
    ) by {
        assert(separated(rs[i], rs[j], gap));
    }
}

/// `r` starts no further left and no higher than `area`.
pub open spec fn from_corner(r: Rect, area: Rect) -> bool {
    area.x <= r.x && area.y <= r.y
}

/// `r` lies within `area`.
pub open spec fn inside(r: Rect, area: Rect) -> bool {
    &&& from_corner(r, area)
    &&& r.x + r.width <= area.x + area.width
    &&& r.y + r.height <= area.y + area.height
}

/// The inner gaps of `n` windows fit across `area` both ways.
pub open spec fn roomy(area: Rect, n: nat, gap: int) -> bool {
    n * gap <= area.width && n * gap <= area.height
}

/// `rs` are rows of `area`: full width, starting at its top or below, each
/// at least `gap` above the next.
pub open spec fn stacked(rs: Seq<Rect>, area: Rect, gap: int) -> bool {
    &&& forall|i: int|
        0 <= i < rs.len() ==> {
            &&& (#[trigger] rs[i]).x == area.x
            &&& rs[i].width == area.width
            &&& area.y <= rs[i].y
            &&& 0 <= rs[i].height
        }
    &&& forall|i: int, j: int|
        0 <= i < j < rs.len() ==> #[trigger] rs[i].y + rs[i].height + gap <= #[trigger] rs[j].y
}

/// `rs` are columns of `area`: full height, starting at its left edge or to
/// the right, each at least `gap` left of the next.
pub open spec fn side_by_side(rs: Seq<Rect>, area: Rect, gap: int) -> bool {
    &&& forall|i: int|
        0 <= i < rs.len() ==> {
            &&& (#[trigger] rs[i]).y == area.y
            &&& rs[i].height == area.height
            &&& area.x <= rs[i].x
            &&& 0 <= rs[i].width
        }
    &&& forall|i: int, j: int|
        0 <= i < j < rs.len() ==> #[trigger] rs[i].x + rs[i].width + gap <= #[trigger] rs[j].x
}

/// Every rectangle of `rs` lies within `area`.
pub open spec fn all_inside(rs: Seq<Rect>, area: Rect) -> bool {
    forall|i: int| 0 <= i < rs.len() ==> inside(#[trigger] rs[i], area)
}

/// Every rectangle of `rs` has a non-negative width and height.
pub open spec fn all_sized(rs: Seq<Rect>) -> bool {
    forall|i: int| 0 <= i < rs.len() ==> 0 <= (#[trigger] rs[i]).width && 0 <= rs[i].height
}

/// Every rectangle of `rs` starts no further left and no higher than `area`.
pub open spec fn all_from_corner(rs: Seq<Rect>, area: Rect) -> bool {
    forall|i: int| 0 <= i < rs.len() ==> from_corner(#[trigger] rs[i], area)
}

/// The rectangles of a geometry list.
pub open spec fn rects_of(g: Seq<WindowGeometry>) -> Seq<Rect> {
    Seq::new(g.len(), |i: int| g[i].rect)
}

proof fn lemma_stacked_separated(rs: Seq<Rect>, area: Rect, gap: int)
    requires
        stacked(rs, area, gap),
    ensures
        pairwise_separated(rs, gap),
{
    assert forall|i: int, j: int|
        0 <= i < rs.len() && 0 <= j < rs.len() && i != j implies separated(
        #[trigger] rs[i],
        #[trigger] rs[j],
        gap,
    ) by {
        if i < j {
            assert(rs[i].y + rs[i].height + gap <= rs[j].y);
        } else {
            assert(rs[j].y + rs[j].height + gap <= rs[i].y);
        }
    }
}

proof fn lemma_side_by_side_separated(rs: Seq<Rect>, area: Rect, gap: int)
    requires
        side_by_side(rs, area, gap),
    ensures
        pairwise_separated(rs, gap),
{
    assert forall|i: int, j: int|
        0 <= i < rs.len() && 0 <= j < rs.len() && i != j implies separated(
        #[trigger] rs[i],
        #[trigger] rs[j],
        gap,
    ) by {
        if i < j {
            assert(rs[i].x + rs[i].width + gap <= rs[j].x);
        } else {
            assert(rs[j].x + rs[j].width + gap <= rs[i].x);
        }
    }
}

/// Two lists each separated within themselves, and whose every pair across
/// is separated, are separated together.
proof fn lemma_concat_separated(a: Seq<Rect>, b: Seq<Rect>, gap: int)
    requires
        pairwise_separated(a, gap),
        pairwise_separated(b, gap),
        forall|i: int, j: int|
            0 <= i < a.len() && 0 <= j < b.len() ==> separated(#[trigger] a[i], #[trigger] b[j], gap),
    ensures
        pairwise_separated(a + b, gap),
{
    let c = a + b;
    assert forall|i: int, j: int|
        0 <= i < c.len() && 0 <= j < c.len() && i != j implies separated(
        #[trigger] c[i],
        #[trigger] c[j],
        gap,
    ) by {
        if i < a.len() && j < a.len() {
            assert(c[i] == a[i] && c[j] == a[j]);
        } else if i >= a.len() && j >= a.len() {
            assert(c[i] == b[i - a.len()] && c[j] == b[j - a.len()]);
        } else if i < a.len() {
            assert(c[i] == a[i] && c[j] == b[j - a.len()]);
            assert(separated(a[i], b[j - a.len()], gap));
        } else {
            assert(c[j] == a[j] && c[i] == b[i - a.len()]);
            assert(separated(a[j], b[i - a.len()], gap));
        }
    }
}

/// A split into one segment leaves it whole.
proof fn lemma_single_seg(total: int, gap: int)
    requires
        total >= 0,
    ensures
        seg_len(total, 1, gap, 0) == total,
{
    assert(gap * (1 - 1) == 0);
    let a = avail_of(total, 1, gap);
    assert(a == total);
    assert(a / 1 == a && a % 1 == 0) by (nonlinear_arith);
}

/// `gap * (m - 1) <= n * gap` for `1 <= m <= n`, `gap >= 0`.
proof fn lemma_gap_room(n: int, m: int, gap: int)
    requires
        1 <= m <= n,
        0 <= gap,
    ensures
        gap * (m - 1) <= n * gap,
        gap * (m - 1) <= gap * (n - 1),
        0 <= gap * (m - 1),
{
    assert(gap * (m - 1) <= n * gap) by (nonlinear_arith)
        requires
            1 <= m <= n,
            0 <= gap,
    ;
    assert(gap * (m - 1) <= gap * (n - 1)) by (nonlinear_arith)
        requires
            1 <= m <= n,
            0 <= gap,
    ;
    assert(0 <= gap * (m - 1)) by (nonlinear_arith)
        requires
            1 <= m,
            0 <= gap,
    ;
}

// ---------------------------------------------------------------------------
// Arithmetic lemmas
// ---------------------------------------------------------------------------

proof fn lemma_seg(total: int, n: int, gap: int, i: int)
    requires
        n > 0,
        0 <= i < n,
        0 <= gap,
        total >= 0,
    ensures
        seg_off(total, n, gap, i + 1) == seg_off(total, n, gap, i) + seg_len(total, n, gap, i)
            + gap,
        seg_len(total, n, gap, i) >= 0,
{
    let a = avail_of(total, n, gap);
    let b = a / n;
    assert(a >= 0);
    assert(b >= 0) by (nonlinear_arith)
        requires
            a >= 0,
            n > 0,
            b == a / n,
    ;
    assert((i + 1) * b == i * b + b) by (nonlinear_arith);
    assert((i + 1) * gap == i * gap + gap) by (nonlinear_arith);
}

proof fn lemma_seg_zero(total: int, n: int, gap: int)
    requires
        n > 0,
    ensures
        seg_off(total, n, gap, 0) == 0,
{
    let a = avail_of(total, n, gap);
    assert(0 * (a / n) == 0);
    assert(0 * gap == 0);
    assert(a % n >= 0);
}

proof fn lemma_step_mul(i: int, gap: int)
    ensures
        (i + 1) * gap == i * gap + gap,
{
    assert((i + 1) * gap == i * gap + gap) by (nonlinear_arith);
}

proof fn lemma_seg_bounds(total: int, n: int, gap: int, i: int)
    requires
        n > 0,
        0 <= i <= n,
        0 <= gap,
        total >= 0,
    ensures
        0 <= seg_off(total, n, gap, i),
        seg_off(total, n, gap, i) <= avail_of(total, n, gap) + i * gap,
        i < n ==> 0 <= seg_len(total, n, gap, i) <= avail_of(total, n, gap),
        avail_of(total, n, gap) <= total || avail_of(total, n, gap) == 0,
{
    let a = avail_of(total, n, gap);
    let b = a / n;
    let r = a % n;
    assert(a == n * b + r && 0 <= r < n && b >= 0) by (nonlinear_arith)
        requires
            a >= 0,
            n > 0,
            b == a / n,
            r == a % n,
    ;
    assert(i * b <= n * b) by (nonlinear_arith)
        requires
            0 <= i <= n,
            b >= 0,
    ;
    assert(0 <= i * b) by (nonlinear_arith)
        requires
            0 <= i,
            b >= 0,
    ;
    assert(0 <= i * gap) by (nonlinear_arith)
        requires
            0 <= i,
            gap >= 0,
    ;
    if i < n {
        if b + 1 > a && i < r {
            assert(n * b + r >= b + 1) by (nonlinear_arith)
                requires
                    n >= 1,
                    b >= 0,
                    r >= 1,
            ;
        }
        assert(b <= a) by (nonlinear_arith)
            requires
                a == n * b + r,
                n >= 1,
                b >= 0,
                r >= 0,
        ;
        if i < r {
            assert(b + 1 <= a) by (nonlinear_arith)
                requires
                    a == n * b + r,
                    n >= 1,
                    b >= 0,
                    r >= 1,
            ;
        }
    }
    if i <= r {
        assert(i * b + i <= n * b + r);
    } else {
        assert(i * b + r <= n * b + r);
    }
    assert(gap * (n - 1) >= 0) by (nonlinear_arith)
        requires
            gap >= 0,
            n >= 1,
    ;
}

proof fn lemma_ratio_share(avail: int, ratio: int)
    requires
        avail >= 0,
        0 <= ratio <= RATIO_SCALE,
    ensures
        0 <= ratio_share(avail, ratio) <= avail,
{
    let s = RATIO_SCALE as int;
    assert(0 <= avail * ratio <= avail * s) by (nonlinear_arith)
        requires
            avail >= 0,
            0 <= ratio <= s,
    ;
    assert((avail * ratio + s / 2) / s <= avail) by (nonlinear_arith)
        requires
            0 <= avail * ratio <= avail * s,
            s == 1000000,
            avail >= 0,
    ;
    assert((avail * ratio + s / 2) / s >= 0) by (nonlinear_arith)
        requires
            0 <= avail * ratio,
            s == 1000000,
    ;
}

/// `m * gap <= n * gap` for `0 <= m <= n` and `gap >= 0`.
pub(crate) proof fn lemma_mul_span(n: int, m: int, gap: int)
    requires
        0 <= m <= n,
        0 <= gap,
    ensures
        m * gap <= n * gap,
        0 <= m * gap,
{
    assert(m * gap <= n * gap) by (nonlinear_arith)
        requires
            0 <= m <= n,
            0 <= gap,
    ;
    assert(0 <= m * gap) by (nonlinear_arith)
        requires
            0 <= m,
            0 <= gap,
    ;
}

// ---------------------------------------------------------------------------
// Laws of the layouts
// ---------------------------------------------------------------------------

/// Segment offsets grow with the index.
proof fn lemma_seg_mono(total: int, n: int, gap: int, a: int, b: int)
    requires
        n > 0,
        0 <= a <= b,
        0 <= gap,
        total >= 0,
    ensures
        seg_off(total, n, gap, a) <= seg_off(total, n, gap, b),
{
    let av = avail_of(total, n, gap);
    let q = av / n;
    assert(q >= 0) by (nonlinear_arith)
        requires
            av >= 0,
            n > 0,
            q == av / n,
    ;
    assert(a * q <= b * q) by (nonlinear_arith)
        requires
            0 <= a <= b,
            q >= 0,
    ;
    assert(a * gap <= b * gap) by (nonlinear_arith)
        requires
            0 <= a <= b,
            gap >= 0,
    ;
}

/// Segment `i` starts at or after the start and ends within
/// `max(total, gap * (n - 1))` of it; within `total` when the gaps fit.
proof fn lemma_seg_extent(total: int, n: int, gap: int, i: int)
    requires
        n > 0,
        0 <= i < n,
        0 <= gap,
        total >= 0,
    ensures
        0 <= seg_off(total, n, gap, i),
        0 <= seg_len(total, n, gap, i) <= total,
        seg_off(total, n, gap, i) + seg_len(total, n, gap, i) <= max_int(total, gap * (n - 1)),
        gap * (n - 1) <= total ==> seg_off(total, n, gap, i) + seg_len(total, n, gap, i)
            <= total,
{
    lemma_seg_bounds(total, n, gap, i);
    lemma_seg_bounds(total, n, gap, i + 1);
    lemma_seg(total, n, gap, i);
    assert(i * gap <= gap * (n - 1)) by (nonlinear_arith)
        requires
            0 <= i < n,
            gap >= 0,
    ;
    lemma_step_mul(i, gap);
}

/// Rows of `area` keep its left edge and width, start at or below its top,
/// each at least `gap` above the next, and stay within it when the gaps fit.
proof fn lemma_split_v_law(area: Rect, n: nat, gap: int)
    requires
        0 <= gap,
        0 <= area.height,
        area.y + max_int(area.height as int, gap * (n - 1)) <= i32::MAX,
    ensures
        stacked(split_v_spec(area, n, gap), area, gap),
        gap * (n - 1) <= area.height ==> all_inside(split_v_spec(area, n, gap), area),
{
    let rs = split_v_spec(area, n, gap);
    let h = area.height as int;
    let k = n as int;
    assert forall|i: int| 0 <= i < rs.len() implies {
        &&& (#[trigger] rs[i]).x == area.x
        &&& rs[i].width == area.width
        &&& rs[i].y == area.y + seg_off(h, k, gap, i)
        &&& rs[i].height == seg_len(h, k, gap, i)
        &&& area.y <= rs[i].y
        &&& 0 <= rs[i].height
        &&& gap * (n - 1) <= h ==> rs[i].y + rs[i].height <= area.y + h
    } by {
        lemma_seg_extent(h, k, gap, i);
    }
    assert forall|i: int, j: int|
        0 <= i < j < rs.len() implies #[trigger] rs[i].y + rs[i].height + gap
        <= #[trigger] rs[j].y by {
        lemma_seg(h, k, gap, i);
        lemma_seg_mono(h, k, gap, i + 1, j);
    }
    if gap * (n - 1) <= h {
        assert forall|i: int| 0 <= i < rs.len() implies inside(#[trigger] rs[i], area) by {}
    }
}

/// Columns of `area` keep its top edge and height, start at or right of its
/// left edge, each at least `gap` left of the next, and stay within it when
/// the gaps fit.
proof fn lemma_split_h_law(area: Rect, n: nat, gap: int)
    requires
        0 <= gap,
        0 <= area.width,
        area.x + max_int(area.width as int, gap * (n - 1)) <= i32::MAX,
    ensures
        side_by_side(split_h_spec(area, n, gap), area, gap),
        gap * (n - 1) <= area.width ==> all_inside(split_h_spec(area, n, gap), area),
{
    let rs = split_h_spec(area, n, gap);
    let w = area.width as int;
    let k = n as int;
    assert forall|i: int| 0 <= i < rs.len() implies {
        &&& (#[trigger] rs[i]).y == area.y
        &&& rs[i].height == area.height
        &&& rs[i].x == area.x + seg_off(w, k, gap, i)
        &&& rs[i].width == seg_len(w, k, gap, i)
        &&& area.x <= rs[i].x
        &&& 0 <= rs[i].width
        &&& gap * (n - 1) <= w ==> rs[i].x + rs[i].width <= area.x + w
    } by {
        lemma_seg_extent(w, k, gap, i);
    }
    assert forall|i: int, j: int|
        0 <= i < j < rs.len() implies #[trigger] rs[i].x + rs[i].width + gap
        <= #[trigger] rs[j].x by {
        lemma_seg(w, k, gap, i);
        lemma_seg_mono(w, k, gap, i + 1, j);
    }
    if gap * (n - 1) <= w {
        assert forall|i: int| 0 <= i < rs.len() implies inside(#[trigger] rs[i], area) by {}
    }
}

/// The two halves of a column split: the left one at the area's corner,
/// the right one a gap further on, reaching `max(width, gap)` across.
proof fn lemma_split_columns(area: Rect, ratio: int, gap: int)
    requires
        0 <= gap,
        0 <= ratio <= RATIO_SCALE,
        0 <= area.width,
        area.x + max_int(area.width as int, gap) <= i32::MAX,
    ensures
        ({
            let (l, r) = split_columns_spec(area, ratio, gap);
            &&& l.x == area.x && l.y == area.y && l.height == area.height
            &&& 0 <= l.width && l.x + l.width <= area.x + area.width
            &&& r.x == l.x + l.width + gap && r.y == area.y && r.height == area.height
            &&& 0 <= r.width
            &&& r.x + r.width == area.x + max_int(area.width as int, gap)
        }),
{
    lemma_ratio_share(max0(area.width - gap), ratio);
}

/// The two halves of a row split: the top one at the area's corner, the
/// bottom one a gap further down, reaching `max(height, gap)` down.
proof fn lemma_split_rows(area: Rect, ratio: int, gap: int)
    requires
        0 <= gap,
        0 <= ratio <= RATIO_SCALE,
        0 <= area.height,
        area.y + max_int(area.height as int, gap) <= i32::MAX,
    ensures
        ({
            let (t, b) = split_rows_spec(area, ratio, gap);
            &&& t.x == area.x && t.y == area.y && t.width == area.width
            &&& 0 <= t.height && t.y + t.height <= area.y + area.height
            &&& b.y == t.y + t.height + gap && b.x == area.x && b.width == area.width
            &&& 0 <= b.height
            &&& b.y + b.height == area.y + max_int(area.height as int, gap)
        }),
{
    lemma_ratio_share(max0(area.height - gap), ratio);
}

/// Rows of `area` are pairwise separated and start no further up or left.
proof fn lemma_rows_law(area: Rect, n: nat, gap: int)
    requires
        0 <= gap,
        0 <= area.width,
        0 <= area.height,
        area.y + max_int(area.height as int, gap * (n - 1)) <= i32::MAX,
    ensures
        stacked(split_v_spec(area, n, gap), area, gap),
        pairwise_separated(split_v_spec(area, n, gap), gap),
        all_from_corner(split_v_spec(area, n, gap), area),
        gap * (n - 1) <= area.height ==> all_inside(split_v_spec(area, n, gap), area),
        all_sized(split_v_spec(area, n, gap)),
{
    let rs = split_v_spec(area, n, gap);
    lemma_split_v_law(area, n, gap);
    lemma_stacked_separated(rs, area, gap);
    assert forall|i: int| 0 <= i < rs.len() implies 0 <= (#[trigger] rs[i]).width && 0
        <= rs[i].height by {}
}

/// Master/stack keeps the tiles a gap apart, none left of or above the
/// area, all within it when the gaps fit.
proof fn lemma_tile_law(n: nat, area: Rect, p: LayoutParams)
    requires
        0 <= p.gaps_inner,
        p.master_ratio <= RATIO_SCALE,
        0 <= area.width,
        0 <= area.height,
        area.x + max_int(area.width as int, n * p.gaps_inner) <= i32::MAX,
        area.y + max_int(area.height as int, n * p.gaps_inner) <= i32::MAX,
    ensures
        pairwise_separated(tile_spec(n, area, p), p.gaps_inner as int),
        all_from_corner(tile_spec(n, area, p), area),
        roomy(area, n, p.gaps_inner as int) ==> all_inside(tile_spec(n, area, p), area),
        all_sized(tile_spec(n, area, p)),
{
    let gap = p.gaps_inner as int;
    let rs = tile_spec(n, area, p);
    if n > 0 {
        let mc = master_of(p.master_count as int, n as int);
        if n <= mc {
            lemma_gap_room(n as int, n as int, gap);
            lemma_rows_law(area, n, gap);
        } else {
            lemma_gap_room(n as int, mc, gap);
            lemma_gap_room(n as int, n - mc, gap);
            lemma_gap_room(n as int, 2, gap);
            lemma_split_columns(area, p.master_ratio as int, gap);
            let (m, s) = split_columns_spec(area, p.master_ratio as int, gap);
            lemma_rows_law(m, mc as nat, gap);
            lemma_rows_law(s, (n - mc) as nat, gap);
            let a = split_v_spec(m, mc as nat, gap);
            let b = split_v_spec(s, (n - mc) as nat, gap);
            assert(rs == a + b);
            assert forall|i: int, j: int| 0 <= i < a.len() && 0 <= j < b.len() implies separated(
                #[trigger] a[i],
                #[trigger] b[j],
                gap,
            ) by {
                assert(from_corner(b[j], s));
                assert(a[i].x == m.x && a[i].width == m.width);
            }
            lemma_concat_separated(a, b, gap);
            assert forall|i: int| 0 <= i < rs.len() implies from_corner(#[trigger] rs[i], area)
                && 0 <= rs[i].width && 0 <= rs[i].height by {
                if i < a.len() {
                    assert(rs[i] == a[i]);
                } else {
                    assert(rs[i] == b[i - a.len()]);
                }
            }
            if roomy(area, n, gap) {
                assert forall|i: int| 0 <= i < rs.len() implies inside(#[trigger] rs[i], area) by {
                    if i < a.len() {
                        assert(rs[i] == a[i]);
                        assert(inside(a[i], m));
                    } else {
                        assert(rs[i] == b[i - a.len()]);
                        assert(inside(b[i - a.len()], s));
                    }
                }
            }
        }
    }
}

/// Three-column keeps the tiles a gap apart, none left of or above the
/// area, all within it when the gaps fit.
proof fn lemma_three_column_law(n: nat, area: Rect, p: LayoutParams)
    requires
        0 <= p.gaps_inner,
        p.master_ratio <= RATIO_SCALE,
        0 <= area.width,
        0 <= area.height,
        area.x + max_int(area.width as int, n * p.gaps_inner) <= i32::MAX,
        area.y + max_int(area.height as int, n * p.gaps_inner) <= i32::MAX,
    ensures
        pairwise_separated(three_column_spec(n, area, p), p.gaps_inner as int),
        all_from_corner(three_column_spec(n, area, p), area),
        roomy(area, n, p.gaps_inner as int) ==> all_inside(three_column_spec(n, area, p), area),
        all_sized(three_column_spec(n, area, p)),
{
    let gap = p.gaps_inner as int;
    let rs = three_column_spec(n, area, p);
    if n > 0 {
        let mc = master_of(p.master_count as int, n as int);
        if n <= mc {
            lemma_gap_room(n as int, n as int, gap);
            lemma_rows_law(area, n, gap);
        } else {
            let stack = n - mc;
            let left_count = (stack + 1) / 2;
            let right_count = stack - left_count;
            if right_count == 0 {
                lemma_tile_law(n, area, p);
            } else {
                lemma_gap_room(n as int, mc, gap);
                lemma_gap_room(n as int, left_count, gap);
                lemma_gap_room(n as int, right_count, gap);
                lemma_gap_room(n as int, 3, gap);
                let avail = max0(area.width - 2 * gap);
                let master_w = ratio_share(avail, p.master_ratio as int);
                lemma_ratio_share(avail, p.master_ratio as int);
                let side_total = avail - master_w;
                let left_w = half(side_total);
                let right_w = side_total - left_w;
                assert(0 <= left_w <= side_total);
                let left_area = rect_of(area.x as int, area.y as int, left_w, area.height as int);
                let master_area = rect_of(
                    area.x + left_w + gap,
                    area.y as int,
                    master_w,
                    area.height as int,
                );
                let right_area = rect_of(
                    area.x + left_w + gap + master_w + gap,
                    area.y as int,
                    right_w,
                    area.height as int,
                );
                assert(avail + 2 * gap == max_int(area.width as int, 2 * gap));
                assert(left_area.x == area.x && left_area.width == left_w);
                assert(master_area.x == area.x + left_w + gap && master_area.width == master_w);
                assert(right_area.x == area.x + left_w + gap + master_w + gap);
                assert(right_area.width == right_w);
                lemma_rows_law(master_area, mc as nat, gap);
                lemma_rows_law(left_area, left_count as nat, gap);
                lemma_rows_law(right_area, right_count as nat, gap);
                let a = split_v_spec(master_area, mc as nat, gap);
                let b = split_v_spec(left_area, left_count as nat, gap);
                let c = split_v_spec(right_area, right_count as nat, gap);
                assert(rs == (a + b) + c);
                assert forall|i: int, j: int|
                    0 <= i < a.len() && 0 <= j < b.len() implies separated(
                    #[trigger] a[i],
                    #[trigger] b[j],
                    gap,
                ) by {
                    assert(from_corner(a[i], master_area));
                    assert(b[j].x == left_area.x && b[j].width == left_area.width);
                }
                lemma_concat_separated(a, b, gap);
                let ab = a + b;
                assert forall|i: int, j: int|
                    0 <= i < ab.len() && 0 <= j < c.len() implies separated(
                    #[trigger] ab[i],
                    #[trigger] c[j],
                    gap,
                ) by {
                    assert(from_corner(c[j], right_area));
                    if i < a.len() {
                        assert(ab[i] == a[i]);
                        assert(a[i].x == master_area.x && a[i].width == master_area.width);
                    } else {
                        assert(ab[i] == b[i - a.len()]);
                        assert(b[i - a.len()].x == left_area.x);
                        assert(b[i - a.len()].width == left_area.width);
                    }
                }
                lemma_concat_separated(ab, c, gap);
                assert forall|i: int| 0 <= i < rs.len() implies from_corner(
                    #[trigger] rs[i],
                    area,
                ) && 0 <= rs[i].width && 0 <= rs[i].height by {
                    if i < a.len() {
                        assert(rs[i] == a[i]);
                    } else if i < a.len() + b.len() {
                        assert(rs[i] == b[i - a.len()]);
                    } else {
                        assert(rs[i] == c[i - a.len() - b.len()]);
                    }
                }
                if roomy(area, n, gap) {
                    assert(area.width >= 2 * gap);
                    assert forall|i: int| 0 <= i < rs.len() implies inside(
                        #[trigger] rs[i],
                        area,
                    ) by {
                        if i < a.len() {
                            assert(rs[i] == a[i]);
                            assert(inside(a[i], master_area));
                        } else if i < a.len() + b.len() {
                            assert(rs[i] == b[i - a.len()]);
                            assert(inside(b[i - a.len()], left_area));
                        } else {
                            assert(rs[i] == c[i - a.len() - b.len()]);
                            assert(inside(c[i - a.len() - b.len()], right_area));
                        }
                    }
                }
            }
        }
    }
}

/// Three-column's shape. With at most one stacked window it is master/stack
/// (a single column when every window is a master). Otherwise the masters
/// share the centre column, the next `(s + 1) / 2` windows of the stack take
/// the left column flush with the area's left edge (the odd one goes left),
/// and, where the columns stay within 32 bits, the rest lie right of the
/// centre column.
pub proof fn lemma_three_column_shape(n: nat, area: Rect, p: LayoutParams)
    requires
        n >= 1,
    ensures
        ({
            let mc = master_of(p.master_count as int, n as int);
            let s = n - mc;
            let rs = three_column_spec(n, area, p);
            &&& rs.len() == n
            &&& s <= 1 ==> rs == tile_spec(n, area, p)
            &&& s >= 2 ==> {
                &&& forall|i: int|
                    0 <= i < mc ==> (#[trigger] rs[i]).x == rs[0].x && rs[i].width == rs[0].width
                &&& forall|i: int| mc <= i < mc + (s + 1) / 2 ==> (#[trigger] rs[i]).x == area.x
                &&& 0 <= p.gaps_inner && p.master_ratio <= RATIO_SCALE && 0 <= area.width
                    && area.x + max_int(area.width as int, 2 * p.gaps_inner) <= i32::MAX
                    ==> forall|i: int|
                    mc + (s + 1) / 2 <= i < n ==> (#[trigger] rs[i]).x >= rs[0].x + rs[0].width
                    + p.gaps_inner
            }
        }),
{
    let mc = master_of(p.master_count as int, n as int);
    let s = n - mc;
    let rs = three_column_spec(n, area, p);
    if s >= 2 {
        let gap = p.gaps_inner as int;
        let left_count = (s + 1) / 2;
        let right_count = s - left_count;
        let avail = max0(area.width - 2 * gap);
        let master_w = ratio_share(avail, p.master_ratio as int);
        let side_total = avail - master_w;
        let left_w = half(side_total);
        let right_w = side_total - left_w;
        let left_area = rect_of(area.x as int, area.y as int, left_w, area.height as int);
        let master_area = rect_of(area.x + left_w + gap, area.y as int, master_w, area.height as int);
        let right_area = rect_of(
            area.x + left_w + gap + master_w + gap,
            area.y as int,
            right_w,
            area.height as int,
        );
        let a = split_v_spec(master_area, mc as nat, gap);
        let b = split_v_spec(left_area, left_count as nat, gap);
        let c = split_v_spec(right_area, right_count as nat, gap);
        assert(rs == (a + b) + c);
        assert(rs[0] == a[0]);
        assert forall|i: int| 0 <= i < mc implies (#[trigger] rs[i]).x == rs[0].x && rs[i].width
            == rs[0].width by {
            assert(rs[i] == a[i]);
        }
        assert forall|i: int| mc <= i < mc + (s + 1) / 2 implies (#[trigger] rs[i]).x == area.x by {
            assert(rs[i] == b[i - mc]);
        }
        if 0 <= gap && p.master_ratio <= RATIO_SCALE && 0 <= area.width && area.x + max_int(
            area.width as int,
            2 * gap,
        ) <= i32::MAX {
            lemma_ratio_share(avail, p.master_ratio as int);
            assert(0 <= left_w <= side_total);
            assert(rs[0].x == area.x + left_w + gap && rs[0].width == master_w);
            assert(right_area.x == area.x + left_w + gap + master_w + gap);
            assert forall|i: int| mc + (s + 1) / 2 <= i < n implies (#[trigger] rs[i]).x
                >= rs[0].x + rs[0].width + gap by {
                assert(rs[i] == c[i - mc - left_count]);
            }
        }
    }
}

/// A head tile in front of tiles that all start a gap past its far side
/// (across or down) keeps every tile a gap apart.
proof fn lemma_head_separated(h: Rect, tail: Seq<Rect>, rest: Rect, gap: int)
    requires
        pairwise_separated(tail, gap),
        all_from_corner(tail, rest),
        h.x + h.width + gap <= rest.x || h.y + h.height + gap <= rest.y,
    ensures
        pairwise_separated(seq![h] + tail, gap),
{
    let hs = seq![h];
    assert forall|i: int, j: int| 0 <= i < hs.len() && 0 <= j < tail.len() implies separated(
        #[trigger] hs[i],
        #[trigger] tail[j],
        gap,
    ) by {
        assert(from_corner(tail[j], rest));
    }
    lemma_concat_separated(hs, tail, gap);
}

/// The spiral from window `i` on keeps the tiles a gap apart, none left of
/// or above the area, all within it when every split has room.
proof fn lemma_spiral_law(i: nat, n: nat, area: Rect, p: LayoutParams)
    requires
        0 <= p.gaps_inner,
        p.master_ratio <= RATIO_SCALE,
        0 <= area.width,
        0 <= area.height,
        area.x + area.width + (if spiral_room(i, n, area, p) {
            0
        } else {
            (n - i) * p.gaps_inner
        }) <= i32::MAX,
        area.y + area.height + (if spiral_room(i, n, area, p) {
            0
        } else {
            (n - i) * p.gaps_inner
        }) <= i32::MAX,
    ensures
        pairwise_separated(spiral_from(i, n, area, p), p.gaps_inner as int),
        all_from_corner(spiral_from(i, n, area, p), area),
        spiral_room(i, n, area, p) ==> all_inside(spiral_from(i, n, area, p), area),
        all_sized(spiral_from(i, n, area, p)),
    decreases n - i,
{
    let gap = p.gaps_inner as int;
    let rs = spiral_from(i, n, area, p);
    if i + 1 == n {
        assert(rs == seq![area]);
        assert(inside(rs[0], area));
    } else if i + 1 < n {
        lemma_step_mul((n - i - 1) as int, gap);
        lemma_mul_span((n - i - 1) as int, (n - i - 1) as int, gap);
        assert((n - i - 1) * gap + gap == (n - i) * gap);
        if i % 2 == 0 {
            lemma_split_columns(area, p.master_ratio as int, gap);
            let (h, rest) = split_columns_spec(area, p.master_ratio as int, gap);
            lemma_spiral_law(i + 1, n, rest, p);
            let tail = spiral_from(i + 1, n, rest, p);
            assert(rs == seq![h] + tail);
            lemma_head_separated(h, tail, rest, gap);
            assert forall|j: int| 0 <= j < rs.len() implies from_corner(#[trigger] rs[j], area)
                && 0 <= rs[j].width && 0 <= rs[j].height by {
                if j > 0 {
                    assert(rs[j] == tail[j - 1]);
                    assert(from_corner(tail[j - 1], rest));
                }
            }
            if spiral_room(i, n, area, p) {
                assert forall|j: int| 0 <= j < rs.len() implies inside(#[trigger] rs[j], area) by {
                    if j > 0 {
                        assert(rs[j] == tail[j - 1]);
                        assert(inside(tail[j - 1], rest));
                    }
                }
            }
        } else {
            lemma_split_rows(area, p.master_ratio as int, gap);
            let (h, rest) = split_rows_spec(area, p.master_ratio as int, gap);
            lemma_spiral_law(i + 1, n, rest, p);
            let tail = spiral_from(i + 1, n, rest, p);
            assert(rs == seq![h] + tail);
            lemma_head_separated(h, tail, rest, gap);
            assert forall|j: int| 0 <= j < rs.len() implies from_corner(#[trigger] rs[j], area)
                && 0 <= rs[j].width && 0 <= rs[j].height by {
                if j > 0 {
                    assert(rs[j] == tail[j - 1]);
                    assert(from_corner(tail[j - 1], rest));
                }
            }
            if spiral_room(i, n, area, p) {
                assert forall|j: int| 0 <= j < rs.len() implies inside(#[trigger] rs[j], area) by {
                    if j > 0 {
                        assert(rs[j] == tail[j - 1]);
                        assert(inside(tail[j - 1], rest));
                    }
                }
            }
        }
    }
}

/// The spiral from window `i` on ends with a tile that takes all that
/// remains: where every split has room, the last tile reaches the far
/// (right and bottom) edges of the area.
pub proof fn lemma_spiral_last_reaches_far_edges(i: nat, n: nat, area: Rect, p: LayoutParams)
    requires
        i < n,
        0 <= p.gaps_inner,
        p.master_ratio <= RATIO_SCALE,
        0 <= area.width,
        0 <= area.height,
        area.x + area.width <= i32::MAX,
        area.y + area.height <= i32::MAX,
        spiral_room(i, n, area, p),
    ensures
        spiral_from(i, n, area, p).len() == n - i,
        spiral_from(i, n, area, p)[n - i - 1].x + spiral_from(i, n, area, p)[n - i - 1].width
            == area.x + area.width,
        spiral_from(i, n, area, p)[n - i - 1].y + spiral_from(i, n, area, p)[n - i - 1].height
            == area.y + area.height,
    decreases n - i,
{
    let gap = p.gaps_inner as int;
    let rs = spiral_from(i, n, area, p);
    if i + 1 < n {
        if i % 2 == 0 {
            lemma_split_columns(area, p.master_ratio as int, gap);
            let (h, rest) = split_columns_spec(area, p.master_ratio as int, gap);
            lemma_spiral_last_reaches_far_edges(i + 1, n, rest, p);
            let tail = spiral_from(i + 1, n, rest, p);
            assert(rs == seq![h] + tail);
            assert(rs[n - i - 1] == tail[n - i - 2]);
        } else {
            lemma_split_rows(area, p.master_ratio as int, gap);
            let (h, rest) = split_rows_spec(area, p.master_ratio as int, gap);
            lemma_spiral_last_reaches_far_edges(i + 1, n, rest, p);
            let tail = spiral_from(i + 1, n, rest, p);
            assert(rs == seq![h] + tail);
            assert(rs[n - i - 1] == tail[n - i - 2]);
        }
    }
}

/// The laws every layout keeps inside an area within reach: tiles at least
/// the inner gap apart (monocle aside, whose tiles coincide), none left of
/// or above the area, and all within it when the gaps fit (for the spiral:
/// when every split has room).
proof fn lemma_layout_laws(kind: LayoutKind, n: nat, inner: Rect, p: LayoutParams)
    requires
        0 <= p.gaps_inner,
        p.master_ratio <= RATIO_SCALE,
        0 <= inner.width,
        0 <= inner.height,
        reach_ok(kind, inner.x as int, inner.width as int, spread_of(kind, n, inner, p)),
        reach_ok(kind, inner.y as int, inner.height as int, spread_of(kind, n, inner, p)),
    ensures
        kind != LayoutKind::Monocle ==> pairwise_separated(
            layout_rects(kind, n, inner, p),
            p.gaps_inner as int,
        ),
        all_from_corner(layout_rects(kind, n, inner, p), inner),
        all_sized(layout_rects(kind, n, inner, p)),
        kind != LayoutKind::Spiral && roomy(inner, n, p.gaps_inner as int) ==> all_inside(
            layout_rects(kind, n, inner, p),
            inner,
        ),
        kind == LayoutKind::Spiral && spiral_room(0, n, inner, p) ==> all_inside(
            layout_rects(kind, n, inner, p),
            inner,
        ),
{
    let gap = p.gaps_inner as int;
    match kind {
        LayoutKind::Tile => lemma_tile_law(n, inner, p),
        LayoutKind::Monocle => {
            let rs = monocle_spec(n, inner);
            assert forall|i: int| 0 <= i < rs.len() implies inside(#[trigger] rs[i], inner) && 0
                <= rs[i].width && 0 <= rs[i].height by {}
        },
        LayoutKind::Columns => {
            assert(gap * (n - 1) <= n * gap) by (nonlinear_arith)
                requires
                    gap >= 0,
            ;
            lemma_split_h_law(inner, n, gap);
            let rs = split_h_spec(inner, n, gap);
            lemma_side_by_side_separated(rs, inner, gap);
            assert forall|i: int| 0 <= i < rs.len() implies 0 <= (#[trigger] rs[i]).width && 0
                <= rs[i].height by {}
        },
        LayoutKind::Spiral => lemma_spiral_law(0, n, inner, p),
        LayoutKind::ThreeColumn => lemma_three_column_law(n, inner, p),
        LayoutKind::Floating => {},
    }
}

// ---------------------------------------------------------------------------
// Implementation
// ---------------------------------------------------------------------------

/// The master count clamped to `1..=n`.
fn master_count(mc: usize, n: usize) -> (r: usize)
    requires
        n >= 1,
    ensures
        r == master_of(mc as int, n as int),
        1 <= r <= n,
{
    if mc < 1 {
        1
    } else if mc > n {
        n
    } else {
        mc
    }
}

/// Monocle: every window occupies the full area.
fn monocle(n: usize, area: Rect) -> (r: Vec<Rect>)
    ensures
        r@ == monocle_spec(n as nat, area),
        r@.len() == n,
{
    let mut out: Vec<Rect> = Vec::new();
    let mut i: usize = 0;
    while i < n
        invariant
            i <= n,
            out@ == monocle_spec(i as nat, area),
        decreases n - i,
    {
        out.push(area);
        i = i + 1;
        assert(out@ =~= monocle_spec(i as nat, area));
    }
    out
}

/// The rectangle with the given coordinates, each cast to 32 bits.
fn wide_rect(x: i128, y: i128, w: i128, h: i128) -> (r: Rect)
    ensures
        r == rect_of(x as int, y as int, w as int, h as int),
{
    Rect { x: x as i32, y: y as i32, width: w as i32, height: h as i32 }
}

/// The sizes of segment arithmetic on 32-bit totals and gaps.
proof fn lemma_wide_seg(total: int, n: int, gap: int, i: int)
    requires
        -0x8000_0000 <= total < 0x8000_0000,
        -0x8000_0000 <= gap < 0x8000_0000,
        1 <= n <= 0x1_0000_0000_0000_0000,
        0 <= i < n,
    ensures
        -0x8000_0000_0000_0000_0000_0000 <= gap * (n - 1) <= 0x8000_0000_0000_0000_0000_0000,
        0 <= avail_of(total, n, gap) <= 0x1_0000_0000_0000_0000_0000_0000,
        0 <= i * (avail_of(total, n, gap) / n) <= avail_of(total, n, gap),
        -0x8000_0000_0000_0000_0000_0000 <= i * gap <= 0x8000_0000_0000_0000_0000_0000,
        0 <= seg_len(total, n, gap, i) <= 0x1_0000_0000_0000_0000_0000_0001,
        -0x4_0000_0000_0000_0000_0000_0000 <= seg_off(total, n, gap, i)
            <= 0x4_0000_0000_0000_0000_0000_0000,
{
    assert(-0x8000_0000_0000_0000_0000_0000 <= gap * (n - 1) <= 0x8000_0000_0000_0000_0000_0000)
        by (nonlinear_arith)
        requires
            -0x8000_0000 <= gap < 0x8000_0000,
            0 <= n - 1 < 0x1_0000_0000_0000_0000,
    ;
    assert(-0x8000_0000_0000_0000_0000_0000 <= i * gap <= 0x8000_0000_0000_0000_0000_0000)
        by (nonlinear_arith)
        requires
            -0x8000_0000 <= gap < 0x8000_0000,
            0 <= i < 0x1_0000_0000_0000_0000,
    ;
    let a = avail_of(total, n, gap);
    let b = a / n;
    assert(0 <= b <= a && 0 <= i * b <= a && 0 <= a % n < n) by (nonlinear_arith)
        requires
            a >= 0,
            n >= 1,
            0 <= i < n,
            b == a / n,
    ;
}

/// The sum of a list of lengths.
pub open spec fn total_of(s: Seq<i32>) -> int
    decreases s.len(),
{
    if s.len() == 0 {
        0
    } else {
        total_of(s.drop_last()) + s.last()
    }
}

/// Split `total` into `n` integer lengths separated by `n - 1` gaps,
/// distributing any rounding remainder to the leading segments; a total too
/// short for its gaps gives zero lengths. When the length left to share fits
/// in 32 bits, the lengths add up to it, each is its even share or one more,
/// and they never grow from one to the next; beyond, lengths wrap.
pub fn split_lengths(total: i32, n: usize, gap: i32) -> (r: Vec<i32>)
    ensures
        r@.len() == n,
        forall|i: int|
            0 <= i < n ==> r@[i] == seg_len(total as int, n as int, gap as int, i) as i32,
        n > 0 && avail_of(total as int, n as int, gap as int) <= i32::MAX ==> {
            let a = avail_of(total as int, n as int, gap as int);
            &&& forall|i: int| 0 <= i < n ==> r@[i] == seg_len(total as int, n as int, gap as int, i)
            &&& total_of(r@) == a
            &&& forall|i: int| 0 <= i < n ==> a / (n as int) <= #[trigger] r@[i] <= a / (n as int) + 1
            &&& forall|i: int, j: int| 0 <= i <= j < n ==> #[trigger] r@[j] <= #[trigger] r@[i]
        },
{
    let mut out: Vec<i32> = Vec::new();
    if n == 0 {
        return out;
    }
    let ghost a = avail_of(total as int, n as int, gap as int);
    proof {
        lemma_wide_seg(total as int, n as int, gap as int, 0);
    }
    let nn = n as i128;
    let raw: i128 = total as i128 - (gap as i128) * (nn - 1);
    let avail: i128 = if raw < 0 {
        0
    } else {
        raw
    };
    let base: i128 = avail / nn;
    let rem: i128 = avail % nn;
    proof {
        assert(0 <= base <= avail && 0 <= rem < nn && base * nn + rem == avail) by (nonlinear_arith)
            requires
                avail >= 0,
                nn >= 1,
                base == avail / nn,
                rem == avail % nn,
        ;
    }
    let mut i: usize = 0;
    while i < n
        invariant
            n >= 1,
            nn == n,
            avail == a,
            a == avail_of(total as int, n as int, gap as int),
            0 <= a <= 0x1_0000_0000_0000_0000_0000_0000,
            base == a / (n as int),
            rem == a % (n as int),
            0 <= base <= a,
            0 <= rem < n,
            base * n + rem == a,
            i <= n,
            out@.len() == i,
            forall|j: int|
                0 <= j < i ==> out@[j] == seg_len(total as int, n as int, gap as int, j) as i32,
            a <= i32::MAX ==> total_of(out@) == i * base + min_int(i as int, rem as int),
        decreases n - i,
    {
        let len: i128 = base + if (i as i128) < rem {
            1i128
        } else {
            0i128
        };
        let ghost before = out@;
        out.push(len as i32);
        proof {
            assert(out@.drop_last() =~= before);
            if a <= i32::MAX {
                assert(len <= a) by (nonlinear_arith)
                    requires
                        base * n + rem == a,
                        0 <= rem < n,
                        base >= 0,
                        len == base + (if i < rem { 1int } else { 0int }),
                        0 <= i < n,
                ;
                assert((i + 1) * base == i * base + base) by (nonlinear_arith);
            }
        }
        i = i + 1;
    }
    proof {
        if a <= i32::MAX {
            assert(n * base + rem == a) by (nonlinear_arith)
                requires
                    base * n + rem == a,
            ;
            assert forall|j: int| 0 <= j < n implies 0 <= #[trigger] seg_len(
                total as int,
                n as int,
                gap as int,
                j,
            ) <= a by {
                let extra: int = if j < rem {
                    1
                } else {
                    0
                };
                assert(base + extra <= a) by (nonlinear_arith)
                    requires
                        base * n + rem == a,
                        0 <= rem < n,
                        n >= 1,
                        0 <= j,
                        base >= 0,
                        extra == (if j < rem { 1int } else { 0int }),
                ;
            }
        }
    }
    out
}

/// Offset of segment `i` of `n`, computed without overflow.
fn seg_offset(total: i32, n: usize, gap: i32, i: usize) -> (r: i128)
    requires
        i < n,
    ensures
        r == seg_off(total as int, n as int, gap as int, i as int),
        -0x4_0000_0000_0000_0000_0000_0000 <= r <= 0x4_0000_0000_0000_0000_0000_0000,
{
    proof {
        lemma_wide_seg(total as int, n as int, gap as int, i as int);
    }
    let nn = n as i128;
    let g = gap as i128;
    let spent: i128 = g * (nn - 1);
    let raw: i128 = total as i128 - spent;
    let a: i128 = if raw < 0 {
        0
    } else {
        raw
    };
    let b: i128 = a / nn;
    let rm: i128 = a % nn;
    let ii = i as i128;
    let lead: i128 = if ii < rm {
        ii
    } else {
        rm
    };
    ii * b + lead + ii * g
}

/// `area` cut into `n` rows, for any area and gap.
fn split_v(area: Rect, n: usize, gap: i32) -> (r: Vec<Rect>)
    ensures
        r@ == split_v_spec(area, n as nat, gap as int),
        r@.len() == n,
{
    let lens = split_lengths(area.height, n, gap);
    let mut out: Vec<Rect> = Vec::new();
    let mut i: usize = 0;
    while i < n
        invariant
            i <= n,
            lens@.len() == n,
            forall|j: int|
                0 <= j < n ==> lens@[j] == seg_len(area.height as int, n as int, gap as int, j)
                    as i32,
            out@ == split_v_spec(area, n as nat, gap as int).subrange(0, i as int),
        decreases n - i,
    {
        let off = seg_offset(area.height, n, gap, i);
        out.push(
            wide_rect(area.x as i128, area.y as i128 + off, area.width as i128, lens[i] as i128),
        );
        i = i + 1;
        assert(out@ =~= split_v_spec(area, n as nat, gap as int).subrange(0, i as int));
    }
    assert(out@ =~= split_v_spec(area, n as nat, gap as int));
    out
}

/// `area` cut into `n` columns, for any area and gap.
fn split_h(area: Rect, n: usize, gap: i32) -> (r: Vec<Rect>)
    ensures
        r@ == split_h_spec(area, n as nat, gap as int),
        r@.len() == n,
{
    let lens = split_lengths(area.width, n, gap);
    let mut out: Vec<Rect> = Vec::new();
    let mut i: usize = 0;
    while i < n
        invariant
            i <= n,
            lens@.len() == n,
            forall|j: int|
                0 <= j < n ==> lens@[j] == seg_len(area.width as int, n as int, gap as int, j)
                    as i32,
            out@ == split_h_spec(area, n as nat, gap as int).subrange(0, i as int),
        decreases n - i,
    {
        let off = seg_offset(area.width, n, gap, i);
        out.push(
            wide_rect(area.x as i128 + off, area.y as i128, lens[i] as i128, area.height as i128),
        );
        i = i + 1;
        assert(out@ =~= split_h_spec(area, n as nat, gap as int).subrange(0, i as int));
    }
    assert(out@ =~= split_h_spec(area, n as nat, gap as int));
    out
}

/// The ratio share of a non-negative length below 2^33.
fn share_wide(avail: i128, ratio: u32) -> (r: i128)
    requires
        0 <= avail <= 0x2_0000_0000,
    ensures
        r == ratio_share(avail as int, ratio as int),
        0 <= r <= 0x2_0000_0000_0000,
{
    assert(0 <= avail * ratio <= 0x2_0000_0000 * 0x1_0000_0000) by (nonlinear_arith)
        requires
            0 <= avail <= 0x2_0000_0000,
            0 <= ratio < 0x1_0000_0000,
    ;
    (avail * (ratio as i128) + 500000) / 1000000
}

/// `area` cut into a left/right pair at `ratio`, for any area and gap.
fn split_columns(area: Rect, ratio: u32, gap: i32) -> (r: (Rect, Rect))
    ensures
        r == split_columns_spec(area, ratio as int, gap as int),
{
    let raw: i128 = area.width as i128 - gap as i128;
    let avail: i128 = if raw < 0 {
        0
    } else {
        raw
    };
    let left = share_wide(avail, ratio);
    (
        wide_rect(area.x as i128, area.y as i128, left, area.height as i128),
        wide_rect(
            area.x as i128 + left + gap as i128,
            area.y as i128,
            avail - left,
            area.height as i128,
        ),
    )
}

/// `area` cut into a top/bottom pair at `ratio`, for any area and gap.
fn split_rows(area: Rect, ratio: u32, gap: i32) -> (r: (Rect, Rect))
    ensures
        r == split_rows_spec(area, ratio as int, gap as int),
{
    let raw: i128 = area.height as i128 - gap as i128;
    let avail: i128 = if raw < 0 {
        0
    } else {
        raw
    };
    let top = share_wide(avail, ratio);
    (
        wide_rect(area.x as i128, area.y as i128, area.width as i128, top),
        wide_rect(
            area.x as i128,
            area.y as i128 + top + gap as i128,
            area.width as i128,
            avail - top,
        ),
    )
}

/// Master/stack tiling, for any area and tunables.
fn tile(n: usize, area: Rect, params: &LayoutParams) -> (r: Vec<Rect>)
    ensures
        r@ == tile_spec(n as nat, area, *params),
        r@.len() == n,
{
    if n == 0 {
        let out: Vec<Rect> = Vec::new();
        assert(out@ =~= tile_spec(n as nat, area, *params));
        return out;
    }
    let mc = master_count(params.master_count, n);
    if n <= mc {
        return split_v(area, n, params.gaps_inner);
    }
    let (master_area, stack_area) = split_columns(area, params.master_ratio, params.gaps_inner);
    let mut rects = split_v(master_area, mc, params.gaps_inner);
    let mut rest = split_v(stack_area, n - mc, params.gaps_inner);
    rects.append(&mut rest);
    rects
}

/// Spiral, for any area and tunables.
fn spiral(n: usize, area: Rect, params: &LayoutParams) -> (r: Vec<Rect>)
    ensures
        r@ == spiral_spec(n as nat, area, *params),
        r@.len() == n,
{
    let mut rects: Vec<Rect> = Vec::new();
    if n == 0 {
        return rects;
    }
    let mut remaining = area;
    let mut i: usize = 0;
    while i < n
        invariant
            i < n,
            rects@.len() == i,
            rects@ + spiral_from(i as nat, n as nat, remaining, *params) == spiral_spec(
                n as nat,
                area,
                *params,
            ),
        decreases n - i,
    {
        if i + 1 == n {
            assert(spiral_from(i as nat, n as nat, remaining, *params) == seq![remaining]);
            rects.push(remaining);
            assert(rects@ =~= spiral_spec(n as nat, area, *params));
            return rects;
        }
        if i % 2 == 0 {
            let (h, rest) = split_columns(remaining, params.master_ratio, params.gaps_inner);
            assert(spiral_from(i as nat, n as nat, remaining, *params) == seq![h] + spiral_from(
                (i + 1) as nat,
                n as nat,
                rest,
                *params,
            ));
            rects.push(h);
            remaining = rest;
        } else {
            let (h, rest) = split_rows(remaining, params.master_ratio, params.gaps_inner);
            assert(spiral_from(i as nat, n as nat, remaining, *params) == seq![h] + spiral_from(
                (i + 1) as nat,
                n as nat,
                rest,
                *params,
            ));
            rects.push(h);
            remaining = rest;
        }
        i = i + 1;
        assert(rects@ + spiral_from(i as nat, n as nat, remaining, *params) =~= spiral_spec(
            n as nat,
            area,
            *params,
        ));
    }
    rects
}

/// Three-column, for any area and tunables.
pub fn three_column(n: usize, area: Rect, params: &LayoutParams) -> (r: Vec<Rect>)
    ensures
        r@ == three_column_spec(n as nat, area, *params),
        r@.len() == n,
{
    if n == 0 {
        let out: Vec<Rect> = Vec::new();
        assert(out@ =~= three_column_spec(n as nat, area, *params));
        return out;
    }
    let mc = master_count(params.master_count, n);
    if n <= mc {
        return split_v(area, n, params.gaps_inner);
    }
    let stack: usize = n - mc;
    let left_count: usize = stack - stack / 2;
    let right_count: usize = stack - left_count;
    assert(left_count == (stack + 1) / 2);
    if right_count == 0 {
        return tile(n, area, params);
    }
    let gap = params.gaps_inner as i128;
    let raw: i128 = area.width as i128 - 2 * gap;
    let avail: i128 = if raw < 0 {
        0
    } else {
        raw
    };
    let master_w = share_wide(avail, params.master_ratio);
    let side_total: i128 = avail - master_w;
    let left_w: i128 = if side_total >= 0 {
        side_total / 2
    } else {
        -((-side_total) / 2)
    };
    let right_w: i128 = side_total - left_w;
    let x = area.x as i128;
    let y = area.y as i128;
    let h = area.height as i128;
    let left_area = wide_rect(x, y, left_w, h);
    let master_area = wide_rect(x + left_w + gap, y, master_w, h);
    let right_area = wide_rect(x + left_w + gap + master_w + gap, y, right_w, h);
    let mut rects = split_v(master_area, mc, params.gaps_inner);
    let mut left = split_v(left_area, left_count, params.gaps_inner);
    let mut right = split_v(right_area, right_count, params.gaps_inner);
    rects.append(&mut left);
    rects.append(&mut right);
    rects
}

/// `r` shrunk inward by `by`, for any rectangle and gap.
fn inset(r: Rect, by: i32) -> (out: Rect)
    ensures
        out == inset_spec(r, by as int),
{
    let w: i128 = r.width as i128 - 2 * (by as i128);
    let h: i128 = r.height as i128 - 2 * (by as i128);
    wide_rect(
        r.x as i128 + by as i128,
        r.y as i128 + by as i128,
        if w < 0 {
            0
        } else {
            w
        },
        if h < 0 {
            0
        } else {
            h
        },
    )
}

/// The rectangles of `kind` for `n` windows, for any area and tunables.
fn layout_rects_wide(kind: LayoutKind, n: usize, inner: Rect, params: &LayoutParams) -> (r: Vec<Rect>)
    ensures
        r@ == layout_rects(kind, n as nat, inner, *params),
        kind != LayoutKind::Floating ==> r@.len() == n,
{
    match kind {
        LayoutKind::Tile => tile(n, inner, params),
        LayoutKind::Monocle => monocle(n, inner),
        LayoutKind::Columns => split_h(inner, n, params.gaps_inner),
        LayoutKind::Spiral => spiral(n, inner, params),
        LayoutKind::ThreeColumn => three_column(n, inner, params),
        LayoutKind::Floating => Vec::new(),
    }
}

/// A lone window fills the whole (inset) area in every layout but floating.
proof fn lemma_single_rect(kind: LayoutKind, inner: Rect, p: LayoutParams)
    requires
        kind != LayoutKind::Floating,
        inner.width >= 0,
        inner.height >= 0,
    ensures
        layout_rects(kind, 1, inner, p).len() == 1,
        layout_rects(kind, 1, inner, p)[0] == inner,
{
    lemma_single_seg(inner.height as int, p.gaps_inner as int);
    lemma_single_seg(inner.width as int, p.gaps_inner as int);
    lemma_seg_zero(inner.height as int, 1, p.gaps_inner as int);
    lemma_seg_zero(inner.width as int, 1, p.gaps_inner as int);
    assert(master_of(p.master_count as int, 1) == 1);
    assert(split_v_spec(inner, 1, p.gaps_inner as int)[0] == inner);
    assert(split_h_spec(inner, 1, p.gaps_inner as int)[0] == inner);
    assert(spiral_from(0, 1, inner, p) == seq![inner]);
}

/// Compute geometry for `windows` within `area` under `kind`.
///
/// The result pairs each window with its target rectangle, in input order;
/// [`LayoutKind::Floating`] yields nothing: floating cells impose no geometry.
/// Every input is laid out; coordinates that leave the 32-bit range wrap.
/// Where they stay within it, with non-negative gaps and a ratio of at most
/// one, tiles keep the inner gap between them, none lies left of or above
/// the inset area, and all lie within it when the gaps fit.
pub fn arrange(kind: LayoutKind, windows: &[WindowId], area: Rect, params: &LayoutParams) -> (r:
    Vec<WindowGeometry>)
    ensures
        r@ == arrange_spec(kind, windows@, area, *params),
        kind == LayoutKind::Floating ==> r@.len() == 0,
        kind != LayoutKind::Floating ==> r@.len() == windows@.len(),
        kind != LayoutKind::Floating && windows@.len() == 1 && params.gaps_outer >= 0 ==> r@[0].rect
            == inset_spec(area, params.gaps_outer as int),
        arrange_fits(kind, area, *params, windows@.len()) ==> {
            &&& kind != LayoutKind::Monocle ==> pairwise_disjoint(rects_of(r@))
            &&& kind != LayoutKind::Monocle ==> pairwise_separated(
                rects_of(r@),
                params.gaps_inner as int,
            )
            &&& all_from_corner(rects_of(r@), inset_spec(area, params.gaps_outer as int))
            &&& all_sized(rects_of(r@))
            &&& kind != LayoutKind::Spiral && roomy(
                inset_spec(area, params.gaps_outer as int),
                windows@.len(),
                params.gaps_inner as int,
            ) ==> all_inside(rects_of(r@), inset_spec(area, params.gaps_outer as int))
            &&& kind == LayoutKind::Spiral && spiral_room(
                0,
                windows@.len(),
                inset_spec(area, params.gaps_outer as int),
                *params,
            ) ==> all_inside(rects_of(r@), inset_spec(area, params.gaps_outer as int))
            &&& kind == LayoutKind::Spiral && windows@.len() >= 1 && spiral_room(
                0,
                windows@.len(),
                inset_spec(area, params.gaps_outer as int),
                *params,
            ) ==> {
                let last = r@[windows@.len() - 1].rect;
                let inner = inset_spec(area, params.gaps_outer as int);
                &&& last.x + last.width == inner.x + inner.width
                &&& last.y + last.height == inner.y + inner.height
            }
        },
{
    let n = windows.len();
    let inner = inset(area, params.gaps_outer);
    let rects = layout_rects_wide(kind, n, inner, params);
    let ghost spec_rects = layout_rects(kind, n as nat, inner, *params);
    assert(rects@ == spec_rects);
    proof {
        if kind != LayoutKind::Floating && n == 1 && params.gaps_outer >= 0 {
            let w = max0(area.width - 2 * params.gaps_outer);
            let h = max0(area.height - 2 * params.gaps_outer);
            assert(0 <= w <= i32::MAX && 0 <= h <= i32::MAX);
            assert(inner.width == w && inner.height == h);
            lemma_single_rect(kind, inner, *params);
        }
        if arrange_fits(kind, area, *params, n as nat) {
            let go = params.gaps_outer as int;
            assert(inner.x == area.x + go && inner.y == area.y + go);
            assert(inner.width == max0(area.width - 2 * go));
            assert(inner.height == max0(area.height - 2 * go));
            lemma_layout_laws(kind, n as nat, inner, *params);
            if kind == LayoutKind::Spiral && n >= 1 && spiral_room(0, n as nat, inner, *params) {
                lemma_spiral_last_reaches_far_edges(0, n as nat, inner, *params);
            }
            if kind != LayoutKind::Monocle {
                lemma_separated_disjoint(rects@, params.gaps_inner as int);
            }
        }
    }
    let count = if rects.len() < n {
        rects.len()
    } else {
        n
    };
    let mut out: Vec<WindowGeometry> = Vec::new();
    let mut i: usize = 0;
    while i < count
        invariant
            count <= rects@.len(),
            count <= windows@.len(),
            rects@ == spec_rects,
            count == (if rects@.len() < windows@.len() {
                rects@.len()
            } else {
                windows@.len()
            }),
            i <= count,
            out@ =~= arrange_spec(kind, windows@, area, *params).subrange(0, i as int),
            spec_rects == layout_rects(kind, windows@.len(), inset_spec(area, params.gaps_outer as int), *params),
        decreases count - i,
    {
        out.push(WindowGeometry { id: windows[i].clone(), rect: rects[i] });
        i = i + 1;
        assert(out@ =~= arrange_spec(kind, windows@, area, *params).subrange(0, i as int));
    }
    assert(out@ =~= arrange_spec(kind, windows@, area, *params));
    proof {
        assert(rects_of(out@) =~= rects@.take(count as int));
        if kind != LayoutKind::Floating {
            assert(rects_of(out@) =~= rects@);
        }
        if kind == LayoutKind::Floating {
            assert(rects@.len() == 0);
        }
    }
    out
}

// ---------------------------------------------------------------------------
// Directional neighbors
// ---------------------------------------------------------------------------

/// `v / 2`, truncated toward zero as integer division does.
pub open spec fn half(v: int) -> int {
    if v >= 0 {
        v / 2
    } else {
        -((-v) / 2)
    }
}

/// Horizontal center of `r`.
pub open spec fn center_x(r: Rect) -> int {
    r.x + half(r.width as int)
}

/// Vertical center of `r`.
pub open spec fn center_y(r: Rect) -> int {
    r.y + half(r.height as int)
}

pub open spec fn abs_int(v: int) -> int {
    if v < 0 {
        -v
    } else {
        v
    }
}

/// The center of `c` lies strictly in direction `dir` from the center of `o`.
pub open spec fn toward(dir: Direction, o: Rect, c: Rect) -> bool {
    let dx = center_x(c) - center_x(o);
    let dy = center_y(c) - center_y(o);
    match dir {
        Direction::Left => dx < 0,
        Direction::Right => dx > 0,
        Direction::Up => dy < 0,
        Direction::Down => dy > 0,
    }
}

/// Distance along `dir` plus twice the perpendicular drift, between centers.
pub open spec fn score(dir: Direction, o: Rect, c: Rect) -> int {
    let dx = abs_int(center_x(c) - center_x(o));
    let dy = abs_int(center_y(c) - center_y(o));
    match dir {
        Direction::Left | Direction::Right => dx + 2 * dy,
        Direction::Up | Direction::Down => dy + 2 * dx,
    }
}

/// Candidate `j` may be stepped to: not skipped, and lying toward `dir`.
pub open spec fn eligible(rects: Seq<Rect>, skip: Seq<bool>, o: Rect, dir: Direction, j: int) -> bool {
    0 <= j < rects.len() && !skip[j] && toward(dir, o, rects[j])
}

/// `b` is the candidate to step to: eligible, of least score, and the first
/// among candidates of that score.
pub open spec fn is_best(rects: Seq<Rect>, skip: Seq<bool>, o: Rect, dir: Direction, b: int) -> bool {
    &&& eligible(rects, skip, o, dir, b)
    &&& forall|j: int|
        #![trigger rects[j]]
        eligible(rects, skip, o, dir, j) ==> score(dir, o, rects[b]) <= score(dir, o, rects[j])
    &&& forall|j: int|
        #![trigger rects[j]]
        0 <= j < b && eligible(rects, skip, o, dir, j) ==> score(dir, o, rects[b]) < score(
            dir,
            o,
            rects[j],
        )
}

/// Some candidate lies toward `dir`.
pub open spec fn any_eligible(rects: Seq<Rect>, skip: Seq<bool>, o: Rect, dir: Direction) -> bool {
    exists|j: int| #[trigger] eligible(rects, skip, o, dir, j)
}

/// The value of a geometry list: each window's id characters and rectangle.
pub open spec fn geoms_view(g: Seq<WindowGeometry>) -> Seq<(Seq<char>, Rect)> {
    Seq::new(g.len(), |i: int| (g[i].id@, g[i].rect))
}

/// The characters of an optional window id.
pub open spec fn opt_id_view(o: Option<WindowId>) -> Option<Seq<char>> {
    match o {
        Some(w) => Some(w@),
        None => None,
    }
}

/// The rectangles of a geometry list.
pub open spec fn geom_rects(geoms: Seq<(Seq<char>, Rect)>) -> Seq<Rect> {
    Seq::new(geoms.len(), |i: int| geoms[i].1)
}

/// Which entries of a geometry list are the window `id` itself.
pub open spec fn geom_is(geoms: Seq<(Seq<char>, Rect)>, id: Seq<char>) -> Seq<bool> {
    Seq::new(geoms.len(), |i: int| geoms[i].0 == id)
}

/// `o` is the first entry of `geoms` that is the window `id`.
pub open spec fn first_with_id(geoms: Seq<(Seq<char>, Rect)>, id: Seq<char>, o: int) -> bool {
    &&& 0 <= o < geoms.len()
    &&& geoms[o].0 == id
    &&& forall|j: int| 0 <= j < o ==> geoms[j].0 != id
}

/// What `neighbor` answers: the best window toward `dir` from the first
/// entry of `focused`, or nothing when `focused` is absent or nothing lies
/// that way.
pub open spec fn neighbor_spec(
    geoms: Seq<(Seq<char>, Rect)>,
    focused: Seq<char>,
    dir: Direction,
    r: Option<Seq<char>>,
) -> bool {
    let rects = geom_rects(geoms);
    let skip = geom_is(geoms, focused);
    match r {
        None => forall|o: int|
            first_with_id(geoms, focused, o) ==> !any_eligible(rects, skip, rects[o], dir),
        Some(id) => exists|o: int, b: int|
            first_with_id(geoms, focused, o) && is_best(rects, skip, rects[o], dir, b) && id
                == geoms[b].0,
    }
}

/// Truncating half of a 64-bit value.
fn half_i64(v: i64) -> (r: i64)
    requires
        -0x1_0000_0000 <= v <= 0x1_0000_0000,
    ensures
        r == half(v as int),
{
    if v >= 0 {
        v / 2
    } else {
        -((-v) / 2)
    }
}

/// Center of a rectangle, exact in 64 bits.
fn center(r: Rect) -> (c: (i64, i64))
    ensures
        c.0 == center_x(r),
        c.1 == center_y(r),
        -0x1_0000_0000 <= c.0 <= 0x1_0000_0000,
        -0x1_0000_0000 <= c.1 <= 0x1_0000_0000,
{
    (r.x as i64 + half_i64(r.width as i64), r.y as i64 + half_i64(r.height as i64))
}

/// The index of the best candidate toward `dir` from `origin`, if any.
pub fn nearest(rects: &Vec<Rect>, skip: &Vec<bool>, origin: Rect, dir: Direction) -> (r: Option<usize>)
    requires
        rects@.len() == skip@.len(),
    ensures
        r matches Some(b) ==> is_best(rects@, skip@, origin, dir, b as int),
        r is None ==> !any_eligible(rects@, skip@, origin, dir),
{
    let (fx, fy) = center(origin);
    let mut best: Option<(i64, usize)> = None;
    let mut i: usize = 0;
    while i < rects.len()
        invariant
            rects@.len() == skip@.len(),
            fx == center_x(origin),
            -0x1_0000_0000 <= fx <= 0x1_0000_0000,
            -0x1_0000_0000 <= fy <= 0x1_0000_0000,
            fy == center_y(origin),
            i <= rects@.len(),
            best is None ==> forall|j: int| 0 <= j < i ==> !eligible(rects@, skip@, origin, dir, j),
            best matches Some(p) ==> {
                &&& p.1 < i
                &&& p.0 == score(dir, origin, rects@[p.1 as int])
                &&& eligible(rects@, skip@, origin, dir, p.1 as int)
                &&& forall|j: int|
                    #![trigger rects@[j]]
                    0 <= j < i && eligible(rects@, skip@, origin, dir, j) ==> p.0 <= score(
                        dir,
                        origin,
                        rects@[j],
                    )
                &&& forall|j: int|
                    #![trigger rects@[j]]
                    0 <= j < p.1 && eligible(rects@, skip@, origin, dir, j) ==> p.0 < score(
                        dir,
                        origin,
                        rects@[j],
                    )
            },
        decreases rects@.len() - i,
    {
        if !skip[i] {
            let (cx, cy) = center(rects[i]);
            let dx: i64 = cx - fx;
            let dy: i64 = cy - fy;
            let in_dir = match dir {
                Direction::Left => dx < 0,
                Direction::Right => dx > 0,
                Direction::Up => dy < 0,
                Direction::Down => dy > 0,
            };
            if in_dir {
                let adx: i64 = if dx < 0 {
                    -dx
                } else {
                    dx
                };
                let ady: i64 = if dy < 0 {
                    -dy
                } else {
                    dy
                };
                let s: i64 = match dir {
                    Direction::Left | Direction::Right => adx + 2 * ady,
                    Direction::Up | Direction::Down => ady + 2 * adx,
                };
                assert(s == score(dir, origin, rects@[i as int]));
                let replace = match best {
                    None => true,
                    Some(p) => s < p.0,
                };
                if replace {
                    best = Some((s, i));
                }
            }
        }
        i = i + 1;
    }
    match best {
        None => {
            assert(!any_eligible(rects@, skip@, origin, dir));
            None
        },
        Some(p) => Some(p.1),
    }
}

/// Find the window to move to when stepping `dir` from `focused`.
///
/// Only windows whose center lies in the requested direction are eligible;
/// among those the nearest along that axis wins, with perpendicular drift
/// counted twice, and the first listed wins a tie. `None` when `focused` is
/// not listed or nothing lies that way. Rectangles are global, so this
/// crosses output boundaries.
pub fn neighbor(geoms: &[WindowGeometry], focused: &WindowId, dir: Direction) -> (r: Option<
    WindowId,
>)
    ensures
        neighbor_spec(geoms_view(geoms@), focused@, dir, opt_id_view(r)),
        r matches Some(w) ==> w@ != focused@,
{
    let ghost gv = geoms_view(geoms@);
    let mut rects: Vec<Rect> = Vec::new();
    let mut skip: Vec<bool> = Vec::new();
    let mut origin: Option<usize> = None;
    let mut i: usize = 0;
    while i < geoms.len()
        invariant
            i <= geoms@.len(),
            gv == geoms_view(geoms@),
            rects@ == geom_rects(gv).subrange(0, i as int),
            skip@ == geom_is(gv, focused@).subrange(0, i as int),
            origin is None ==> forall|j: int| 0 <= j < i ==> gv[j].0 != focused@,
            origin matches Some(o) ==> first_with_id(gv, focused@, o as int),
        decreases geoms@.len() - i,
    {
        let is_focused = geoms[i].id.same(focused);
        if is_focused && origin.is_none() {
            origin = Some(i);
        }
        rects.push(geoms[i].rect);
        skip.push(is_focused);
        i = i + 1;
        assert(rects@ =~= geom_rects(gv).subrange(0, i as int));
        assert(skip@ =~= geom_is(gv, focused@).subrange(0, i as int));
    }
    assert(rects@ =~= geom_rects(gv));
    assert(skip@ =~= geom_is(gv, focused@));
    let o = match origin {
        None => {
            return None;
        },
        Some(o) => o,
    };
    match nearest(&rects, &skip, rects[o], dir) {
        None => None,
        Some(b) => {
            assert(first_with_id(gv, focused@, o as int) && is_best(
                rects@,
                skip@,
                rects@[o as int],
                dir,
                b as int,
            ));
            Some(geoms[b].id.clone())
        },
    }
}

} // verus!
