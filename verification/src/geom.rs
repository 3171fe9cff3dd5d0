//! Segment / rectangle clipping primitive.
//!
//! Coordinates are fixed-point integer screen units. All clipping arithmetic
//! is exact: the Liang-Barsky parameter interval is kept as rational numbers
//! with positive denominators, so a constraint parallel to the segment is an
//! exact `d == 0` test rather than an epsilon comparison. The returned
//! crossing point rounds each coordinate down to the unit grid.

use vstd::prelude::*;

verus! {

/// Bound on coordinates accepted at the public routing interface.
pub const COORD_LIMIT: i64 = 100_000_000;

/// Bound on coordinates accepted by the clipping primitive itself; routing
/// intermediates (expanded rectangles, candidate waypoints) stay within it.
pub const GEOM_LIMIT: i64 = 500_000_000;

#[derive(Clone, Copy, PartialEq, Eq, Structural, Debug)]
pub struct Point {
    pub x: i64,
    pub y: i64,
}

#[derive(Clone, Copy, PartialEq, Eq, Structural, Debug)]
pub struct Rect {
    pub x0: i64,
    pub y0: i64,
    pub x1: i64,
    pub y1: i64,
}

pub struct Segment {
    pub p1: Point,
    pub p2: Point,
}

pub open spec fn pt_bounded(p: Point, b: int) -> bool {
    &&& -b <= p.x as int <= b
    &&& -b <= p.y as int <= b
}

pub open spec fn rect_bounded(r: Rect, b: int) -> bool {
    &&& -b <= r.x0 as int <= b
    &&& -b <= r.x1 as int <= b
    &&& -b <= r.y0 as int <= b
    &&& -b <= r.y1 as int <= b
}

pub open spec fn rect_wf(r: Rect) -> bool {
    r.x0 <= r.x1 && r.y0 <= r.y1
}

pub open spec fn pt_in_rect(p: Point, r: Rect) -> bool {
    r.x0 <= p.x <= r.x1 && r.y0 <= p.y <= r.y1
}

pub open spec fn seg_dx(s: Segment) -> int {
    s.p2.x - s.p1.x
}

pub open spec fn seg_dy(s: Segment) -> int {
    s.p2.y - s.p1.y
}

// Rational clip parameters, represented as (numerator, denominator) pairs
// with a positive denominator.

pub open spec fn frac_le(a: (int, int), b: (int, int)) -> bool {
    a.0 * b.1 <= b.0 * a.1
}

pub open spec fn frac_max(a: (int, int), b: (int, int)) -> (int, int) {
    if frac_le(b, a) {
        a
    } else {
        b
    }
}

pub open spec fn frac_min(a: (int, int), b: (int, int)) -> (int, int) {
    if frac_le(a, b) {
        a
    } else {
        b
    }
}

/// Parameter at which the directed line starting at `s` with speed `d`
/// enters the slab `[lo, hi]`, for `d != 0`.
pub open spec fn slab_enter(s: int, lo: int, hi: int, d: int) -> (int, int) {
    if d > 0 {
        (lo - s, d)
    } else {
        (s - hi, -d)
    }
}

/// Parameter at which it leaves the slab, for `d != 0`.
pub open spec fn slab_exit(s: int, lo: int, hi: int, d: int) -> (int, int) {
    if d > 0 {
        (hi - s, d)
    } else {
        (s - lo, -d)
    }
}

pub open spec fn seg_t_enter(s: Segment, r: Rect) -> (int, int) {
    if seg_dx(s) == 0 {
        slab_enter(s.p1.y as int, r.y0 as int, r.y1 as int, seg_dy(s))
    } else if seg_dy(s) == 0 {
        slab_enter(s.p1.x as int, r.x0 as int, r.x1 as int, seg_dx(s))
    } else {
        frac_max(
            slab_enter(s.p1.x as int, r.x0 as int, r.x1 as int, seg_dx(s)),
            slab_enter(s.p1.y as int, r.y0 as int, r.y1 as int, seg_dy(s)),
        )
    }
}

pub open spec fn seg_t_exit(s: Segment, r: Rect) -> (int, int) {
    if seg_dx(s) == 0 {
        slab_exit(s.p1.y as int, r.y0 as int, r.y1 as int, seg_dy(s))
    } else if seg_dy(s) == 0 {
        slab_exit(s.p1.x as int, r.x0 as int, r.x1 as int, seg_dx(s))
    } else {
        frac_min(
            slab_exit(s.p1.x as int, r.x0 as int, r.x1 as int, seg_dx(s)),
            slab_exit(s.p1.y as int, r.y0 as int, r.y1 as int, seg_dy(s)),
        )
    }
}

/// The parameter the primitive reports: the exit parameter when the segment
/// starts inside the rectangle, the entry parameter otherwise.
pub open spec fn seg_t_choose(s: Segment, r: Rect) -> (int, int) {
    if pt_in_rect(s.p1, r) {
        seg_t_exit(s, r)
    } else {
        seg_t_enter(s, r)
    }
}

/// Whether the segment's own parameter range `[0, 1]` contains the reported
/// boundary crossing of the rectangle.
pub open spec fn seg_hits_rect(s: Segment, r: Rect) -> bool {
    &&& !(seg_dx(s) == 0 && seg_dy(s) == 0)
    &&& seg_dx(s) == 0 ==> r.x0 < s.p1.x < r.x1
    &&& seg_dy(s) == 0 ==> r.y0 < s.p1.y < r.y1
    &&& frac_le(seg_t_enter(s, r), seg_t_exit(s, r))
    &&& 0 <= seg_t_choose(s, r).0
    &&& seg_t_choose(s, r).0 <= seg_t_choose(s, r).1
}

/// The crossing point, each coordinate rounded down to the unit grid.
pub open spec fn seg_cross_point(s: Segment, r: Rect) -> Point {
    let t = seg_t_choose(s, r);
    Point {
        x: (s.p1.x as int + (t.0 * seg_dx(s)) / t.1) as i64,
        y: (s.p1.y as int + (t.0 * seg_dy(s)) / t.1) as i64,
    }
}

/// Whether `p` lies in the axis-aligned bounding box of the segment.
pub open spec fn pt_in_seg_bbox(p: Point, s: Segment) -> bool {
    &&& if s.p1.x <= s.p2.x {
        s.p1.x <= p.x <= s.p2.x
    } else {
        s.p2.x <= p.x <= s.p1.x
    }
    &&& if s.p1.y <= s.p2.y {
        s.p1.y <= p.y <= s.p2.y
    } else {
        s.p2.y <= p.y <= s.p1.y
    }
}

pub open spec fn seg_rect_crossing(s: Segment, r: Rect) -> Option<Point> {
    if seg_hits_rect(s, r) {
        Some(seg_cross_point(s, r))
    } else {
        None
    }
}

/// Exact comparison of two clip parameters `an/ad <= bn/bd`.
fn frac_le_exec(an: i64, ad: i64, bn: i64, bd: i64) -> (r: bool)
    requires
        0 < ad <= 2_000_000_000,
        0 < bd <= 2_000_000_000,
        -2_000_000_000 <= an <= 2_000_000_000,
        -2_000_000_000 <= bn <= 2_000_000_000,
    ensures
        r == frac_le((an as int, ad as int), (bn as int, bd as int)),
{
    proof {
        assert(-4_000_000_000_000_000_000 <= (an as int) * (bd as int)
            <= 4_000_000_000_000_000_000 && -4_000_000_000_000_000_000 <= (bn as int) * (ad as int)
            <= 4_000_000_000_000_000_000) by (nonlinear_arith)
            requires
                0 < ad <= 2_000_000_000,
                0 < bd <= 2_000_000_000,
                -2_000_000_000 <= an <= 2_000_000_000,
                -2_000_000_000 <= bn <= 2_000_000_000,
        ;
    }
    an * bd <= bn * ad
}

/// Bound within which every routing waypoint stays: margin-expanded
/// rectangles of bounded obstacles keep their corners inside it.
pub open spec fn candidate_bound() -> int {
    2 * COORD_LIMIT as int
}

/// Floor division for a possibly negative numerator and positive divisor.
pub(crate) fn floor_div(a: i64, b: i64) -> (q: i64)
    requires
        b > 0,
        -0x1000_0000_0000_0000 <= a as int <= 0x1000_0000_0000_0000,
        b as int <= 0x1000_0000_0000_0000,
    ensures
        q as int == (a as int) / (b as int),
        (b as int) * (q as int) <= a as int,
        (a as int) < (b as int) * (q as int + 1),
{
    proof {
        vstd::arithmetic::div_mod::lemma_fundamental_div_mod(a as int, b as int);
        assert((b as int) * ((a as int) / (b as int) + 1) == (b as int) * ((a as int) / (
        b as int)) + (b as int)) by (nonlinear_arith);
    }
    if a >= 0 {
        let q = ((a as u64) / (b as u64)) as i64;
        assert(q as int == (a as int) / (b as int)) by {
            vstd::arithmetic::div_mod::lemma_div_pos_is_pos(a as int, b as int);
        };
        q
    } else {
        let m = (-a) as u64;
        let bu = b as u64;
        let d = ((m + bu - 1) / bu) as i64;
        proof {
            let mi = m as int;
            let bi = b as int;
            let di = (mi + bi - 1) / bi;
            vstd::arithmetic::div_mod::lemma_fundamental_div_mod(mi + bi - 1, bi);
            vstd::arithmetic::div_mod::lemma_fundamental_div_mod(a as int, bi);
            // a/b is the unique q with q*b <= a < (q+1)*b; show -di fits.
            assert((a as int) / bi == -di) by {
                let r1 = (mi + bi - 1) % bi;
                assert(mi + bi - 1 == bi * di + r1);
                assert(0 <= r1 < bi);
                assert((-di) * bi <= a as int && (a as int) < (1 - di) * bi) by (nonlinear_arith)
                    requires
                        mi + bi - 1 == bi * di + r1,
                        0 <= r1 < bi,
                        mi == -(a as int),
                        mi >= 1,
                        bi > 0,
                ;
                assert((1 - di) * bi == (-di) * bi + bi) by (nonlinear_arith);
                vstd::arithmetic::div_mod::lemma_fundamental_div_mod_converse(
                    a as int,
                    bi,
                    -di,
                    a as int - (-di) * bi,
                );
            };
        }
        -d
    }
}

/// For `0 <= t <= d`, `d > 0`, the floor of `t * v / d` lies between `0`
/// and `v`.
proof fn lemma_scaled_offset_bounds(t: int, d: int, v: int, q: int)
    requires
        0 <= t <= d,
        d > 0,
        d * q <= t * v,
        t * v < d * (q + 1),
    ensures
        v >= 0 ==> 0 <= q <= v,
        v < 0 ==> v <= q <= 0,
{
    assert((v >= 0 ==> 0 <= q && q <= v) && (v < 0 ==> v <= q && q <= 0)) by (nonlinear_arith)
        requires
            0 <= t <= d,
            d > 0,
            d * q <= t * v,
            t * v < d * (q + 1),
    ;
}

impl Segment {
    /// The point where the infinite extension of the segment crosses the
    /// rectangle boundary, restricted to the segment's parameter range: the
    /// exit point if the segment starts inside the rectangle, the entry point
    /// otherwise; `None` when no such crossing lies within the segment.
    pub fn intersect_rect(&self, rect: &Rect) -> (r: Option<Point>)
        requires
            pt_bounded(self.p1, GEOM_LIMIT as int),
            pt_bounded(self.p2, GEOM_LIMIT as int),
            rect_bounded(*rect, GEOM_LIMIT as int),
        ensures
            r == seg_rect_crossing(*self, *rect),
            r matches Some(p) ==> pt_in_seg_bbox(p, *self),
    {
        let ddx: i64 = self.p2.x - self.p1.x;
        let ddy: i64 = self.p2.y - self.p1.y;
        if ddx == 0 && ddy == 0 {
            return None;
        }
        if ddx == 0 && (self.p1.x <= rect.x0 || self.p1.x >= rect.x1) {
            return None;
        }
        if ddy == 0 && (self.p1.y <= rect.y0 || self.p1.y >= rect.y1) {
            return None;
        }

        // Entry and exit parameters as fractions with positive denominators.
        let (en, ed, xn, xd): (i64, i64, i64, i64) = if ddx == 0 {
            let (an, ad) = if ddy > 0 {
                (rect.y0 - self.p1.y, ddy)
            } else {
                (self.p1.y - rect.y1, -ddy)
            };
            let (bn, bd) = if ddy > 0 {
                (rect.y1 - self.p1.y, ddy)
            } else {
                (self.p1.y - rect.y0, -ddy)
            };
            (an, ad, bn, bd)
        } else if ddy == 0 {
            let (an, ad) = if ddx > 0 {
                (rect.x0 - self.p1.x, ddx)
            } else {
                (self.p1.x - rect.x1, -ddx)
            };
            let (bn, bd) = if ddx > 0 {
                (rect.x1 - self.p1.x, ddx)
            } else {
                (self.p1.x - rect.x0, -ddx)
            };
            (an, ad, bn, bd)
        } else {
            let (exn, exd) = if ddx > 0 {
                (rect.x0 - self.p1.x, ddx)
            } else {
                (self.p1.x - rect.x1, -ddx)
            };
            let (eyn, eyd) = if ddy > 0 {
                (rect.y0 - self.p1.y, ddy)
            } else {
                (self.p1.y - rect.y1, -ddy)
            };
            let (qxn, qxd) = if ddx > 0 {
                (rect.x1 - self.p1.x, ddx)
            } else {
                (self.p1.x - rect.x0, -ddx)
            };
            let (qyn, qyd) = if ddy > 0 {
                (rect.y1 - self.p1.y, ddy)
            } else {
                (self.p1.y - rect.y0, -ddy)
            };
            let (en, ed) = if frac_le_exec(eyn, eyd, exn, exd) {
                (exn, exd)
            } else {
                (eyn, eyd)
            };
            let (xn, xd) = if frac_le_exec(qxn, qxd, qyn, qyd) {
                (qxn, qxd)
            } else {
                (qyn, qyd)
            };
            (en, ed, xn, xd)
        };
        proof {
            assert((en as int, ed as int) == seg_t_enter(*self, *rect));
            assert((xn as int, xd as int) == seg_t_exit(*self, *rect));
        }

        // Empty parameter interval: the line misses the rectangle.
        if !frac_le_exec(en, ed, xn, xd) {
            return None;
        }

        let inside = self.p1.x >= rect.x0 && self.p1.x <= rect.x1 && self.p1.y >= rect.y0
            && self.p1.y <= rect.y1;
        let (tn, td) = if inside {
            (xn, xd)
        } else {
            (en, ed)
        };

        // The crossing must lie within the segment itself.
        if tn < 0 || tn > td {
            return None;
        }

        proof {
            assert(-0x1000_0000_0000_0000 <= (tn as int) * (ddx as int)
                <= 0x1000_0000_0000_0000 && -0x1000_0000_0000_0000 <= (tn as int) * (ddy as int)
                <= 0x1000_0000_0000_0000) by (nonlinear_arith)
                requires
                    0 <= tn <= 1_000_000_000,
                    -1_000_000_000 <= ddx <= 1_000_000_000,
                    -1_000_000_000 <= ddy <= 1_000_000_000,
            ;
        }
        let ox = floor_div(tn * ddx, td);
        let oy = floor_div(tn * ddy, td);
        proof {
            lemma_scaled_offset_bounds(tn as int, td as int, ddx as int, ox as int);
            lemma_scaled_offset_bounds(tn as int, td as int, ddy as int, oy as int);
        }
        Some(Point { x: self.p1.x + ox, y: self.p1.y + oy })
    }
}

pub open spec fn pt_strictly_in_rect(p: Point, r: Rect) -> bool {
    r.x0 < p.x < r.x1 && r.y0 < p.y < r.y1
}

/// A parameter no greater than one that bounds another parameter from above
/// bounds it below one as well.
proof fn lemma_frac_le_one(a: (int, int), b: (int, int))
    requires
        a.1 > 0,
        b.1 > 0,
        frac_le(b, a),
        a.0 <= a.1,
    ensures
        b.0 <= b.1,
{
    assert(b.0 <= b.1) by (nonlinear_arith)
        requires
            a.1 > 0,
            b.1 > 0,
            b.0 * a.1 <= a.0 * b.1,
            a.0 <= a.1,
    ;
}

/// A segment that starts and ends strictly inside a rectangle has no
/// boundary crossing within its own parameter range: the exit would occur
/// past the segment's end. A segment running exactly along a rectangle edge
/// therefore never blocks: only a strict interior crossing reports a point.
pub proof fn lemma_interior_segment_misses(s: Segment, r: Rect)
    requires
        pt_strictly_in_rect(s.p1, r),
        pt_strictly_in_rect(s.p2, r),
    ensures
        seg_rect_crossing(s, r) is None,
{
    if seg_dx(s) == 0 && seg_dy(s) == 0 {
    } else {
        assert(pt_in_rect(s.p1, r));
        let t = seg_t_exit(s, r);
        // Every single-axis exit parameter exceeds one, and the minimum of
        // such parameters exceeds one as well.
        if seg_dx(s) != 0 {
            let tx = slab_exit(s.p1.x as int, r.x0 as int, r.x1 as int, seg_dx(s));
            assert(tx.0 > tx.1);
        }
        if seg_dy(s) != 0 {
            let ty = slab_exit(s.p1.y as int, r.y0 as int, r.y1 as int, seg_dy(s));
            assert(ty.0 > ty.1);
        }
        assert(t.0 > t.1);
        assert(!seg_hits_rect(s, r));
    }
}

/// A segment that runs exactly along a rectangle edge is tangent: it
/// reports no crossing, and therefore never blocks.
pub proof fn lemma_tangent_segment_misses(s: Segment, r: Rect)
    requires
        (seg_dx(s) == 0 && (s.p1.x <= r.x0 || s.p1.x >= r.x1)) || (seg_dy(s) == 0 && (s.p1.y
            <= r.y0 || s.p1.y >= r.y1)),
    ensures
        seg_rect_crossing(s, r) is None,
{
}

/// A segment that starts strictly inside a rectangle and ends outside it
/// always reports a crossing: the exit lies within the segment's
/// parameter range.
pub proof fn lemma_exit_crossing_exists(s: Segment, r: Rect)
    requires
        pt_strictly_in_rect(s.p1, r),
        !pt_in_rect(s.p2, r),
    ensures
        seg_rect_crossing(s, r) is Some,
{
    let en = seg_t_enter(s, r);
    let ex = seg_t_exit(s, r);
    // The segment is not degenerate: its endpoints differ.
    assert(!(seg_dx(s) == 0 && seg_dy(s) == 0));
    // Entry parameters are nonpositive and exit parameters nonnegative,
    // because the start point satisfies every boundary constraint.
    assert(en.0 <= 0 && en.1 > 0);
    assert(ex.0 >= 0 && ex.1 > 0);
    assert(frac_le(en, ex)) by (nonlinear_arith)
        requires
            en.0 <= 0,
            en.1 > 0,
            ex.0 >= 0,
            ex.1 > 0,
    ;
    // Some boundary constraint fails at the end point, so the exit along
    // that axis, and hence the least exit, lies at or before the segment
    // end.
    if seg_dx(s) != 0 && seg_dy(s) != 0 {
        let tx = slab_exit(s.p1.x as int, r.x0 as int, r.x1 as int, seg_dx(s));
        let ty = slab_exit(s.p1.y as int, r.y0 as int, r.y1 as int, seg_dy(s));
        if s.p2.x < r.x0 || s.p2.x > r.x1 {
            assert(tx.0 <= tx.1);
            if !frac_le(tx, ty) {
                lemma_frac_le_one(tx, ty);
            }
        } else {
            assert(ty.0 <= ty.1);
            if frac_le(tx, ty) {
                lemma_frac_le_one(ty, tx);
            }
        }
    }
    assert(ex.0 <= ex.1);
    assert(seg_hits_rect(s, r));
}

/// The rectangle grown by `margin` on all four sides.
pub open spec fn expand_rect_spec(r: Rect, margin: i64) -> Rect {
    Rect {
        x0: (r.x0 - margin) as i64,
        y0: (r.y0 - margin) as i64,
        x1: (r.x1 + margin) as i64,
        y1: (r.y1 + margin) as i64,
    }
}

pub fn expand_rect(rect: &Rect, margin: i64) -> (r: Rect)
    requires
        rect_bounded(*rect, COORD_LIMIT as int),
        0 <= margin <= COORD_LIMIT,
    ensures
        r == expand_rect_spec(*rect, margin),
        rect_bounded(r, 2 * COORD_LIMIT as int),
{
    Rect { x0: rect.x0 - margin, y0: rect.y0 - margin, x1: rect.x1 + margin, y1: rect.y1 + margin }
}

} // verus!
