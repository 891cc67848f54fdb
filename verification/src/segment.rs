//! Integer line segments: Liang-Barsky clipping against a canvas rectangle
//! and the Bresenham walk over the clipped segment.
use vstd::prelude::*;

verus! {

/// `a / b` rounded to the nearest integer, halves away from zero (`b > 0`).
pub open spec fn round_div(a: int, b: int) -> int
    recommends
        b > 0,
{
    if a >= 0 {
        (2 * a + b) / (2 * b)
    } else {
        -((-2 * a + b) / (2 * b))
    }
}

/// `v` clamped into `[lo, hi]`.
pub open spec fn clamp(v: int, lo: int, hi: int) -> int {
    if v < lo { lo } else if v > hi { hi } else { v }
}

/// A rational number `num / den` with `den > 0`.
pub type Frac = (int, int);

pub open spec fn frac_le(a: Frac, b: Frac) -> bool {
    a.0 * b.1 <= b.0 * a.1
}

pub open spec fn frac_max(a: Frac, b: Frac) -> Frac {
    if frac_le(a, b) { b } else { a }
}

pub open spec fn frac_min(a: Frac, b: Frac) -> Frac {
    if frac_le(a, b) { a } else { b }
}

/// The interval of parameters `t` for which `a0 + t * d` lies in `[0, max]`,
/// as `(lower, upper)` fractions; `None` when `d == 0` and `a0` is outside.
/// With `d == 0` and `a0` inside, the axis does not constrain `t`.
pub open spec fn axis_interval(a0: int, d: int, max: int) -> Option<(Frac, Frac)> {
    if d == 0 {
        if 0 <= a0 && a0 <= max { Some(((0, 1), (1, 1))) } else { None }
    } else if d > 0 {
        Some(((-a0, d), (max - a0, d)))
    } else {
        Some(((a0 - max, -d), (a0, -d)))
    }
}

/// Liang-Barsky clipping, evaluated exactly: the parameter interval
/// `[t0, t1]` of the segment `(x0,y0)-(x1,y1)` that lies inside
/// `[0, max_x] x [0, max_y]`, or `None` when it is empty.
pub open spec fn clip_interval(x0: int, y0: int, x1: int, y1: int, max_x: int, max_y: int) -> Option<(Frac, Frac)> {
    if max_x < 0 || max_y < 0 {
        None
    } else {
        match (axis_interval(x0, x1 - x0, max_x), axis_interval(y0, y1 - y0, max_y)) {
            (Some((lx, ux)), Some((ly, uy))) => {
                let t0 = frac_max((0, 1), frac_max(lx, ly));
                let t1 = frac_min((1, 1), frac_min(ux, uy));
                if frac_le(t0, t1) { Some((t0, t1)) } else { None }
            },
            _ => None,
        }
    }
}

/// The point at parameter `t` of the segment, rounded to the grid and
/// clamped into the bounds.
pub open spec fn point_at(x0: int, y0: int, x1: int, y1: int, t: Frac, max_x: int, max_y: int) -> (int, int) {
    (
        clamp(round_div(x0 * t.1 + t.0 * (x1 - x0), t.1), 0, max_x),
        clamp(round_div(y0 * t.1 + t.0 * (y1 - y0), t.1), 0, max_y),
    )
}

/// The clipped segment: its endpoints at `t0` and `t1`, or `None`.
pub open spec fn clipped_segment(x0: int, y0: int, x1: int, y1: int, max_x: int, max_y: int) -> Option<((int, int), (int, int))> {
    match clip_interval(x0, y0, x1, y1, max_x, max_y) {
        Some((t0, t1)) => Some((point_at(x0, y0, x1, y1, t0, max_x, max_y), point_at(x0, y0, x1, y1, t1, max_x, max_y))),
        None => None,
    }
}

/// `a / b` rounded half away from zero, for `b > 0`.
fn round_div_exec(a: i128, b: i128) -> (r: i128)
    requires
        b > 0,
        -0x10_0000_0000_0000_0000_0000 <= a <= 0x10_0000_0000_0000_0000_0000,
        b <= 0x1_0000_0000_0000_0000_0000,
    ensures
        r == round_div(a as int, b as int),
{
    if a >= 0 {
        (2 * a + b) / (2 * b)
    } else {
        assert(-0x10_0000_0000_0000_0000_0000 <= a < 0);
        let m: i128 = 0 - a;
        let n: i128 = m + m + b;
        let q: i128 = n / (2 * b);
        assert(0 <= q <= n) by (nonlinear_arith)
            requires n >= 0, b > 0, q as int == n as int / (2 * b as int);
        -q
    }
}

fn frac_le_exec(a: (i128, i128), b: (i128, i128)) -> (r: bool)
    requires
        -0x1_0000_0000_0000 <= a.0 <= 0x1_0000_0000_0000,
        -0x1_0000_0000_0000 <= b.0 <= 0x1_0000_0000_0000,
        0 < a.1 <= 0x1_0000_0000_0000,
        0 < b.1 <= 0x1_0000_0000_0000,
    ensures
        r == frac_le((a.0 as int, a.1 as int), (b.0 as int, b.1 as int)),
{
    assert(-0x1_0000_0000_0000_0000_0000_0000 <= a.0 * b.1 <= 0x1_0000_0000_0000_0000_0000_0000) by (nonlinear_arith)
        requires -0x1_0000_0000_0000 <= a.0 <= 0x1_0000_0000_0000, 0 < b.1 <= 0x1_0000_0000_0000;
    assert(-0x1_0000_0000_0000_0000_0000_0000 <= b.0 * a.1 <= 0x1_0000_0000_0000_0000_0000_0000) by (nonlinear_arith)
        requires -0x1_0000_0000_0000 <= b.0 <= 0x1_0000_0000_0000, 0 < a.1 <= 0x1_0000_0000_0000;
    a.0 * b.1 <= b.0 * a.1
}

/// Bounds that every fraction of the clip computation satisfies.
pub open spec fn frac_small(f: (i128, i128)) -> bool {
    &&& -0x1_0000_0000_0000 <= f.0 <= 0x1_0000_0000_0000
    &&& 0 < f.1 <= 0x1_0000_0000_0000
}

pub open spec fn frac_of(f: (i128, i128)) -> Frac {
    (f.0 as int, f.1 as int)
}

fn axis_interval_exec(a0: i64, d: i64, max: i64) -> (r: Option<((i128, i128), (i128, i128))>)
    requires
        -0x1_0000_0000 <= a0 <= 0x1_0000_0000,
        -0x2_0000_0000 <= d <= 0x2_0000_0000,
        0 <= max <= 0x1_0000_0000,
    ensures
        match r {
            Some((lo, hi)) => frac_small(lo) && frac_small(hi)
                && axis_interval(a0 as int, d as int, max as int) == Some((frac_of(lo), frac_of(hi))),
            None => axis_interval(a0 as int, d as int, max as int) is None,
        },
{
    if d == 0 {
        if 0 <= a0 && a0 <= max {
            Some(((0, 1), (1, 1)))
        } else {
            None
        }
    } else if d > 0 {
        Some(((-a0 as i128, d as i128), ((max - a0) as i128, d as i128)))
    } else {
        Some((((a0 - max) as i128, -d as i128), (a0 as i128, -d as i128)))
    }
}

/// Clips the segment `(x0,y0)-(x1,y1)` to the inclusive integer bounds
/// `[0, max_x] x [0, max_y]` using Liang-Barsky.
///
/// Returns the clipped endpoints, or `None` when the segment does not meet the
/// rectangle at all (or the rectangle is empty). The returned coordinates lie
/// inside the bounds, so a Bresenham walk over them is bounded by the canvas,
/// not by the coordinate magnitude.
pub fn clip_line_to_bounds(x0: i32, y0: i32, x1: i32, y1: i32, max_x: i32, max_y: i32)
    -> (r: Option<((i32, i32), (i32, i32))>)
    ensures
        match r {
            Some((a, b)) => clipped_segment(x0 as int, y0 as int, x1 as int, y1 as int, max_x as int, max_y as int)
                == Some(((a.0 as int, a.1 as int), (b.0 as int, b.1 as int))),
            None => clipped_segment(x0 as int, y0 as int, x1 as int, y1 as int, max_x as int, max_y as int) is None,
        },
        r matches Some((a, b)) ==> 0 <= a.0 <= max_x && 0 <= b.0 <= max_x && 0 <= a.1 <= max_y && 0 <= b.1 <= max_y,
{
    if max_x < 0 || max_y < 0 {
        return None;
    }
    let ax = axis_interval_exec(x0 as i64, x1 as i64 - x0 as i64, max_x as i64);
    let ay = axis_interval_exec(y0 as i64, y1 as i64 - y0 as i64, max_y as i64);
    let ((lx, ux), (ly, uy)) = match (ax, ay) {
        (Some(a), Some(b)) => (a, b),
        _ => {
            return None;
        },
    };
    let lxy = if frac_le_exec(lx, ly) { ly } else { lx };
    let t0 = if frac_le_exec((0, 1), lxy) { lxy } else { (0, 1) };
    let uxy = if frac_le_exec(ux, uy) { ux } else { uy };
    let t1 = if frac_le_exec((1, 1), uxy) { (1, 1) } else { uxy };
    if !frac_le_exec(t0, t1) {
        return None;
    }
    let cx0 = clamp_exec(point_coord(x0, x1, t0), max_x);
    let cy0 = clamp_exec(point_coord(y0, y1, t0), max_y);
    let cx1 = clamp_exec(point_coord(x0, x1, t1), max_x);
    let cy1 = clamp_exec(point_coord(y0, y1, t1), max_y);
    Some(((cx0, cy0), (cx1, cy1)))
}

/// The rounded coordinate `a0 + t * (a1 - a0)`.
fn point_coord(a0: i32, a1: i32, t: (i128, i128)) -> (r: i128)
    requires
        frac_small(t),
    ensures
        r == round_div(a0 * t.1 + t.0 * (a1 - a0), t.1 as int),
{
    let d: i128 = a1 as i128 - a0 as i128;
    assert(-0x1_0000_0000_0000_0000_0000 <= a0 as i128 * t.1 <= 0x1_0000_0000_0000_0000_0000) by (nonlinear_arith)
        requires -0x8000_0000 <= a0 <= 0x7fff_ffff, 0 < t.1 <= 0x1_0000_0000_0000;
    assert(-0x1_0000_0000_0000_0000_0000 <= t.0 * d <= 0x1_0000_0000_0000_0000_0000) by (nonlinear_arith)
        requires -0x1_0000_0000_0000 <= t.0 <= 0x1_0000_0000_0000, -0x1_0000_0000 <= d <= 0x1_0000_0000;
    let num: i128 = a0 as i128 * t.1 + t.0 * d;
    round_div_exec(num, t.1)
}

/// `v` clamped into `[0, max]`.
fn clamp_exec(v: i128, max: i32) -> (r: i32)
    requires
        max >= 0,
    ensures
        r == clamp(v as int, 0, max as int),
{
    if v < 0 {
        0
    } else if v > max as i128 {
        max
    } else {
        v as i32
    }
}


/// The grid points of a Bresenham walk from `(x, y)` with error term `err`
/// towards `(x1, y1)`; `dx >= 0` and `dy <= 0` are the absolute horizontal and
/// negated vertical extents, `sx`/`sy` the step directions. `fuel` bounds the
/// number of steps.
pub open spec fn bres_path(x: int, y: int, err: int, x1: int, y1: int, dx: int, dy: int, sx: int, sy: int, fuel: nat) -> Set<(int, int)>
    decreases fuel,
{
    if (x == x1 && y == y1) || fuel == 0 {
        set![(x, y)]
    } else {
        let e2 = 2 * err;
        let nx = if e2 >= dy { x + sx } else { x };
        let err1 = if e2 >= dy { err + dy } else { err };
        let ny = if e2 <= dx { y + sy } else { y };
        let err2 = if e2 <= dx { err1 + dx } else { err1 };
        set![(x, y)].union(bres_path(nx, ny, err2, x1, y1, dx, dy, sx, sy, (fuel - 1) as nat))
    }
}

/// A point with integer coordinates.
pub open spec fn pt_int(q: (i32, i32)) -> (int, int) {
    (q.0 as int, q.1 as int)
}

/// `p` is one of the points of `pts`.
pub open spec fn pts_contains(pts: Seq<(i32, i32)>, p: (int, int)) -> bool {
    exists|j: int| 0 <= j < pts.len() && pt_int(#[trigger] pts[j]) == p
}

pub open spec fn abs(v: int) -> int {
    if v < 0 { -v } else { v }
}

/// The points of the Bresenham segment from `(x0, y0)` to `(x1, y1)`.
pub open spec fn segment_dots(x0: int, y0: int, x1: int, y1: int) -> Set<(int, int)> {
    let dx = abs(x1 - x0);
    let dy = -abs(y1 - y0);
    bres_path(x0, y0, dx + dy, x1, y1, dx, dy, if x0 < x1 { 1 } else { -1 }, if y0 < y1 { 1 } else { -1 }, (dx - dy) as nat)
}

/// The points a clipped line draws inside `[0, max_x] x [0, max_y]`.
pub open spec fn line_dots(x0: int, y0: int, x1: int, y1: int, max_x: int, max_y: int) -> Set<(int, int)> {
    match clipped_segment(x0, y0, x1, y1, max_x, max_y) {
        Some((a, b)) => segment_dots(a.0, a.1, b.0, b.1),
        None => Set::empty(),
    }
}

/// One Bresenham step keeps the walk inside the segment's box and makes
/// progress: the error term stays in `[-2D, 2dx]` and never asks to step past
/// the end in either axis.
proof fn lemma_bres_step(dx: int, d: int, a: int, b: int, g: int, h: int, err: int)
    requires
        0 <= a <= dx,
        0 <= b <= d,
        !(a == dx && b == d),
        g == dx * b,
        h == d * a,
        err == dx + g - d - h,
        -2 * d <= err <= 2 * dx,
    ensures
        (2 * err >= -d) ==> a < dx,
        (2 * err <= dx) ==> b < d,
        (2 * err >= -d) || (2 * err <= dx),
        ({
            let e1 = if 2 * err >= -d { err - d } else { err };
            let e2 = if 2 * err <= dx { e1 + dx } else { e1 };
            -2 * d <= e2 <= 2 * dx
        }),
{
    if a == dx {
        assert(b <= d - 1);
        assert(dx * b <= dx * (d - 1)) by (nonlinear_arith)
            requires b <= d - 1, dx >= 0;
        assert(dx * (d - 1) == dx * d - dx) by (nonlinear_arith);
        assert(h == d * dx);
        assert(d * dx == dx * d) by (nonlinear_arith);
    }
    if b == d {
        assert(a <= dx - 1);
        assert(d * a <= d * (dx - 1)) by (nonlinear_arith)
            requires a <= dx - 1, d >= 0;
        assert(d * (dx - 1) == d * dx - d) by (nonlinear_arith);
        assert(g == dx * d);
        assert(d * dx == dx * d) by (nonlinear_arith);
    }
}

/// The points of the Bresenham segment from `(x0, y0)` to `(x1, y1)`, in walk
/// order.
pub fn segment_points(x0: i32, y0: i32, x1: i32, y1: i32) -> (pts: Vec<(i32, i32)>)
    requires
        -0x10_0000 <= x0 <= 0x10_0000,
        -0x10_0000 <= y0 <= 0x10_0000,
        -0x10_0000 <= x1 <= 0x10_0000,
        -0x10_0000 <= y1 <= 0x10_0000,
    ensures
        forall|i: int| 0 <= i < pts@.len() ==> segment_dots(x0 as int, y0 as int, x1 as int, y1 as int).contains(
            pt_int(#[trigger] pts@[i])),
        forall|p: (int, int)| segment_dots(x0 as int, y0 as int, x1 as int, y1 as int).contains(p) ==> exists|i: int|
            0 <= i < pts@.len() && pt_int(#[trigger] pts@[i]) == p,
{
    let ghost full = segment_dots(x0 as int, y0 as int, x1 as int, y1 as int);
    let dx: i32 = if x1 >= x0 { x1 - x0 } else { x0 - x1 };
    let big_d: i32 = if y1 >= y0 { y1 - y0 } else { y0 - y1 };
    let dy: i32 = -big_d;
    let sx: i32 = if x0 < x1 { 1 } else { -1 };
    let sy: i32 = if y0 < y1 { 1 } else { -1 };
    let mut err: i32 = dx + dy;
    let mut x: i32 = x0;
    let mut y: i32 = y0;
    let mut pts: Vec<(i32, i32)> = Vec::new();
    let ghost mut a: int = 0;
    let ghost mut b: int = 0;
    let ghost mut g: int = 0;
    let ghost mut h: int = 0;
    let ghost mut fuel: nat = (dx - dy) as nat;
    proof {
        assert(dx * 0 == 0) by (nonlinear_arith);
        assert(big_d * 0 == 0) by (nonlinear_arith);
    }
    loop
        invariant
            dx == abs(x1 - x0),
            big_d == abs(y1 - y0),
            dy == -big_d,
            dx <= 0x20_0000,
            big_d <= 0x20_0000,
            sx == (if x0 < x1 { 1int } else { -1int }),
            sy == (if y0 < y1 { 1int } else { -1int }),
            0 <= a <= dx,
            0 <= b <= big_d,
            sx == 1 ==> x == x0 + a,
            sx == -1 ==> x == x0 - a,
            sy == 1 ==> y == y0 + b,
            sy == -1 ==> y == y0 - b,
            g == dx * b,
            h == big_d * a,
            err == dx + g - big_d - h,
            -2 * big_d <= err <= 2 * dx,
            fuel + a + b >= dx + big_d,
            (a == dx && b == big_d) || fuel > 0,
            (a == dx && b == big_d) ==> (x == x1 && y == y1),
            full == segment_dots(x0 as int, y0 as int, x1 as int, y1 as int),
            forall|p: (int, int)| full.contains(p) <==> (
                (exists|i: int| 0 <= i < pts@.len() && pt_int(#[trigger] pts@[i]) == p)
                || bres_path(x as int, y as int, err as int, x1 as int, y1 as int, dx as int, dy as int, sx as int, sy as int, fuel).contains(p)),
        decreases (dx - a) + (big_d - b),
    {
        let ghost old_pts = pts@;
        pts.push((x, y));
        proof {
            assert(pts@[old_pts.len() as int] == (x, y));
        }
        if x == x1 && y == y1 {
            proof {
                assert(bres_path(x as int, y as int, err as int, x1 as int, y1 as int, dx as int, dy as int, sx as int, sy as int, fuel) == set![(x as int, y as int)]);
                assert forall|p: (int, int)| full.contains(p) implies exists|i: int| 0 <= i < pts@.len() && pt_int(#[trigger] pts@[i]) == p by {
                    if exists|i: int| 0 <= i < old_pts.len() && pt_int(#[trigger] old_pts[i]) == p {
                        let i = choose|i: int| 0 <= i < old_pts.len() && pt_int(#[trigger] old_pts[i]) == p;
                        assert(pts@[i] == old_pts[i]);
                    } else {
                        assert(p == (x as int, y as int));
                        let k = old_pts.len() as int;
                        assert(pt_int(pts@[k]) == p);
                    }
                }
                assert forall|i: int| 0 <= i < pts@.len() implies full.contains(pt_int(#[trigger] pts@[i])) by {
                    if i < old_pts.len() {
                        assert(pts@[i] == old_pts[i]);
                        assert(exists|j: int| 0 <= j < old_pts.len() && pt_int(#[trigger] old_pts[j]) == pt_int(pts@[i]));
                    }
                }
            }
            return pts;
        }
        proof {
            if a == dx && b == big_d {
                assert(false);
            }
            lemma_bres_step(dx as int, big_d as int, a, b, g, h, err as int);
        }
        let e2: i32 = 2 * err;
        let ghost xs = e2 >= dy;
        let ghost ys = e2 <= dx;
        let ghost old_state = (x as int, y as int, err as int, fuel);
        if e2 >= dy {
            err = err + dy;
            x = x + sx;
            proof {
                a = a + 1;
                h = h + big_d;
                assert(h == big_d * a) by (nonlinear_arith)
                    requires h == big_d * (a - 1) + big_d;
            }
        }
        if e2 <= dx {
            err = err + dx;
            y = y + sy;
            proof {
                b = b + 1;
                g = g + dx;
                assert(g == dx * b) by (nonlinear_arith)
                    requires g == dx * (b - 1) + dx;
            }
        }
        proof {
            let f = fuel;
            fuel = (fuel - 1) as nat;
            assert(bres_path(old_state.0, old_state.1, old_state.2, x1 as int, y1 as int, dx as int, dy as int, sx as int, sy as int, f)
                == set![(old_state.0, old_state.1)].union(bres_path(x as int, y as int, err as int, x1 as int, y1 as int, dx as int, dy as int, sx as int, sy as int, fuel)));
            if a == dx && b == big_d {
                assert(x == x1 && y == y1) by {
                    if x0 < x1 { assert(x1 - x0 == dx); } else { assert(x0 - x1 == dx); }
                    if y0 < y1 { assert(y1 - y0 == big_d); } else { assert(y0 - y1 == big_d); }
                }
            }
            assert forall|p: (int, int)| full.contains(p) <==> (
                (exists|i: int| 0 <= i < pts@.len() && pt_int(#[trigger] pts@[i]) == p)
                || bres_path(x as int, y as int, err as int, x1 as int, y1 as int, dx as int, dy as int, sx as int, sy as int, fuel).contains(p)) by {
                let in_old = exists|i: int| 0 <= i < old_pts.len() && pt_int(#[trigger] old_pts[i]) == p;
                let in_new = exists|i: int| 0 <= i < pts@.len() && pt_int(#[trigger] pts@[i]) == p;
                if in_old {
                    let i = choose|i: int| 0 <= i < old_pts.len() && pt_int(#[trigger] old_pts[i]) == p;
                    assert(pts@[i] == old_pts[i]);
                    assert(in_new);
                }
                if p == (old_state.0, old_state.1) {
                    let k = old_pts.len() as int;
                    assert(pt_int(pts@[k]) == p);
                    assert(in_new);
                }
                if in_new {
                    let i = choose|i: int| 0 <= i < pts@.len() && pt_int(#[trigger] pts@[i]) == p;
                    if i < old_pts.len() {
                        assert(pts@[i] == old_pts[i]);
                        assert(in_old);
                    } else {
                        assert(p == (old_state.0, old_state.1));
                    }
                }
                assert(in_new == (in_old || p == (old_state.0, old_state.1)));
            }
        }
    }
}


/// Rounding an exact multiple gives the multiplier back.
proof fn lemma_round_div_exact(k: int, b: int)
    requires
        b > 0,
    ensures
        round_div(k * b, b) == k,
{
    if k * b >= 0 {
        assert(k >= 0) by (nonlinear_arith) requires k * b >= 0, b > 0;
        assert((2 * (k * b) + b) / (2 * b) == k) by (nonlinear_arith)
            requires k >= 0, b > 0;
    } else {
        assert(k < 0) by (nonlinear_arith) requires k * b < 0, b > 0;
        assert((-2 * (k * b) + b) / (2 * b) == -k) by (nonlinear_arith)
            requires k < 0, b > 0;
    }
}

/// The axis interval of a segment whose ends lie in `[0, max]` reaches from
/// at most 0 to at least 1.
proof fn lemma_axis_inside(a0: int, a1: int, max: int)
    requires
        0 <= a0 <= max,
        0 <= a1 <= max,
    ensures
        axis_interval(a0, a1 - a0, max) matches Some((lo, hi))
            && lo.1 > 0 && hi.1 > 0 && frac_le(lo, (0, 1)) && frac_le((1, 1), hi),
{
}

/// A segment whose endpoints already lie inside the bounds is kept as it
/// is by clipping.
pub proof fn law_clip_keeps_inside_segments(x0: int, y0: int, x1: int, y1: int, max_x: int, max_y: int)
    requires
        0 <= x0 <= max_x,
        0 <= x1 <= max_x,
        0 <= y0 <= max_y,
        0 <= y1 <= max_y,
    ensures
        clipped_segment(x0, y0, x1, y1, max_x, max_y) == Some(((x0, y0), (x1, y1))),
{
    lemma_axis_inside(x0, x1, max_x);
    lemma_axis_inside(y0, y1, max_y);
    let (lx, ux) = axis_interval(x0, x1 - x0, max_x).unwrap();
    let (ly, uy) = axis_interval(y0, y1 - y0, max_y).unwrap();
    let m = frac_max(lx, ly);
    assert(frac_le(m, (0, 1)) && m.1 > 0);
    let t0 = frac_max((0, 1), m);
    assert(t0.0 == 0 && t0.1 > 0) by {
        if frac_le((0, 1), m) {
            assert(m.0 * 1 <= 0 * m.1);
            assert(0 * m.1 <= m.0 * 1);
        }
    }
    let n = frac_min(ux, uy);
    assert(frac_le((1, 1), n) && n.1 > 0);
    let t1 = frac_min((1, 1), n);
    assert(t1 == (1int, 1int));
    assert(frac_le(t0, t1));
    assert(x0 * t0.1 + t0.0 * (x1 - x0) == x0 * t0.1);
    assert(y0 * t0.1 + t0.0 * (y1 - y0) == y0 * t0.1);
    lemma_round_div_exact(x0, t0.1);
    lemma_round_div_exact(y0, t0.1);
    lemma_round_div_exact(x1, 1);
    lemma_round_div_exact(y1, 1);
}

} // verus!
