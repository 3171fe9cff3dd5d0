//! Visibility graph builder.
//!
//! Turns a set of obstacle rectangles plus two endpoints into a graph of
//! candidate waypoints and collision-free edges. Node 0 is the start point
//! and node 1 the goal; every obstacle contributes the four corners of its
//! margin-expanded rectangle and the four midpoints of its original edges.
//! An edge is kept iff the straight segment between its endpoints crosses no
//! obstacle, where a crossing of an expanded rectangle is forgiven when the
//! original rectangle is not crossed (the narrow-gap exception).

use vstd::prelude::*;

use crate::geom::{
    candidate_bound, expand_rect, expand_rect_spec, pt_bounded, rect_bounded, seg_hits_rect,
    Point, Rect, Segment, COORD_LIMIT,
};

verus! {

/// A directed edge of the navigation graph; `cost` is the Euclidean
/// distance between its endpoints, rounded down to an integer.
pub struct Edge {
    pub to: usize,
    pub cost: u64,
}

pub struct Graph {
    pub nodes: Vec<Point>,
    pub adj: Vec<Vec<Edge>>,
}

impl Graph {
    pub open spec fn wf(self) -> bool {
        &&& self.adj@.len() == self.nodes@.len()
        &&& forall|u: int, k: int|
            0 <= u < self.adj@.len() && 0 <= k < self.adj@[u]@.len() ==> (
            #[trigger] self.adj@[u]@[k]).to < self.nodes@.len()
    }

    pub open spec fn has_edge(self, u: int, v: int) -> bool {
        exists|k: int| 0 <= k < self.adj@[u]@.len() && (#[trigger] self.adj@[u]@[k]).to == v
    }
}

/// `c` is the integer part of the Euclidean distance from `p` to `q`.
pub open spec fn is_euclid_floor(p: Point, q: Point, c: u64) -> bool {
    let dx = q.x - p.x;
    let dy = q.y - p.y;
    &&& (c as int) * (c as int) <= dx * dx + dy * dy
    &&& dx * dx + dy * dy < (c as int + 1) * (c as int + 1)
}

/// The straight segment from `p` to `q` passes `o`: either it misses the
/// margin-expanded rectangle, or — the narrow-gap exception — it also
/// misses the original rectangle.
pub open spec fn obstacle_clear(p: Point, q: Point, o: Rect, margin: i64) -> bool {
    let s = Segment { p1: p, p2: q };
    seg_hits_rect(s, expand_rect_spec(o, margin)) ==> !seg_hits_rect(s, o)
}

/// The straight segment from `p` to `q` passes every obstacle.
pub open spec fn edge_ok(p: Point, q: Point, obstacles: Seq<Rect>, margin: i64) -> bool {
    forall|k: int| 0 <= k < obstacles.len() ==> obstacle_clear(p, q, #[trigger] obstacles[k], margin)
}

/// The straight segment between two route waypoints is collision-free; the
/// clipping test runs in one fixed orientation per unordered pair, so the
/// guarantee holds of one of the two.
pub open spec fn seg_clear(a: Point, b: Point, obstacles: Seq<Rect>, margin: i64) -> bool {
    edge_ok(a, b, obstacles, margin) || edge_ok(b, a, obstacles, margin)
}

/// The narrow-gap exception as a law: an axis-parallel segment running
/// through the gap between two obstacles — at or beyond the first one's
/// far edge and at or before the second one's near edge — is collision-free
/// against both, however narrow the gap and however large the margin. It
/// may cross the expanded rectangles, but never the originals.
pub proof fn lemma_narrow_gap_passage(p: Point, q: Point, a: Rect, b: Rect, margin: i64)
    requires
        (p.x == q.x && a.x1 <= p.x <= b.x0) || (p.y == q.y && a.y1 <= p.y <= b.y0),
    ensures
        obstacle_clear(p, q, a, margin),
        obstacle_clear(p, q, b, margin),
{
    let s = Segment { p1: p, p2: q };
    assert(!seg_hits_rect(s, a));
    assert(!seg_hits_rect(s, b));
}

pub open spec fn all_rects_bounded(obstacles: Seq<Rect>, b: int) -> bool {
    forall|k: int| 0 <= k < obstacles.len() ==> rect_bounded(#[trigger] obstacles[k], b)
}

/// Integer square root by bisection.
pub fn isqrt(n: u64) -> (r: u64)
    requires
        n < 0x4000_0000_0000_0000,
    ensures
        (r as int) * (r as int) <= n as int,
        (n as int) < (r as int + 1) * (r as int + 1),
{
    if n == 0 {
        return 0;
    }
    let mut lo: u64 = 0;
    let mut hi: u64 = 0x8000_0000;
    proof {
        assert((hi as int) * (hi as int) == 0x4000_0000_0000_0000) by (nonlinear_arith)
            requires
                hi == 0x8000_0000u64,
        ;
    }
    while lo + 1 < hi
        invariant
            lo < hi,
            hi <= 0x8000_0000,
            (lo as int) * (lo as int) <= n as int,
            (n as int) < (hi as int) * (hi as int),
        decreases hi - lo,
    {
        let mid = lo + (hi - lo) / 2;
        proof {
            assert(0 <= (mid as int) * (mid as int) <= 0x4000_0000_0000_0000) by (nonlinear_arith)
                requires
                    0 <= mid <= 0x8000_0000u64,
            ;
        }
        if mid * mid <= n {
            lo = mid;
        } else {
            hi = mid;
        }
    }
    lo
}

/// Euclidean distance between two waypoints, rounded down.
pub fn euclid_dist(p: &Point, q: &Point) -> (c: u64)
    requires
        pt_bounded(*p, candidate_bound()),
        pt_bounded(*q, candidate_bound()),
    ensures
        is_euclid_floor(*p, *q, c),
{
    let dx: i64 = q.x - p.x;
    let dy: i64 = q.y - p.y;
    proof {
        assert(0 <= dx * dx <= 0x1000_0000_0000_0000 && 0 <= dy * dy <= 0x1000_0000_0000_0000
            && dx * dx + dy * dy < 0x4000_0000_0000_0000) by (nonlinear_arith)
            requires
                -1_000_000_000 <= dx <= 1_000_000_000,
                -1_000_000_000 <= dy <= 1_000_000_000,
        ;
    }
    let sq: u64 = (dx * dx) as u64 + (dy * dy) as u64;
    isqrt(sq)
}

/// The `k`-th candidate waypoint contributed by obstacle `o` (`0 <= k < 8`):
/// corners of the expanded rectangle first, then midpoints of the original
/// edges.
pub open spec fn candidate_node(o: Rect, margin: i64, k: int) -> Point {
    let e = expand_rect_spec(o, margin);
    if k == 0 {
        Point { x: e.x0, y: e.y0 }
    } else if k == 1 {
        Point { x: e.x1, y: e.y0 }
    } else if k == 2 {
        Point { x: e.x1, y: e.y1 }
    } else if k == 3 {
        Point { x: e.x0, y: e.y1 }
    } else if k == 4 {
        Point { x: ((o.x0 + o.x1) / 2) as i64, y: o.y0 }
    } else if k == 5 {
        Point { x: ((o.x0 + o.x1) / 2) as i64, y: o.y1 }
    } else if k == 6 {
        Point { x: o.x0, y: ((o.y0 + o.y1) / 2) as i64 }
    } else {
        Point { x: o.x1, y: ((o.y0 + o.y1) / 2) as i64 }
    }
}

/// Extract the candidate waypoints of every obstacle, eight per obstacle.
pub fn extract_candidate_nodes(obstacles: &Vec<Rect>, margin: i64) -> (r: Vec<Point>)
    requires
        all_rects_bounded(obstacles@, COORD_LIMIT as int),
        0 <= margin <= COORD_LIMIT,
        8 * obstacles@.len() <= usize::MAX,
    ensures
        r@.len() == 8 * obstacles@.len(),
        forall|j: int|
            0 <= j < r@.len() ==> #[trigger] r@[j] == candidate_node(
                obstacles@[j / 8],
                margin,
                j % 8,
            ),
        forall|j: int| 0 <= j < r@.len() ==> pt_bounded(#[trigger] r@[j], candidate_bound()),
{
    let mut r: Vec<Point> = Vec::new();
    let n = obstacles.len();
    let mut i: usize = 0;
    while i < n
        invariant
            i <= n,
            n == obstacles@.len(),
            all_rects_bounded(obstacles@, COORD_LIMIT as int),
            0 <= margin <= COORD_LIMIT,
            8 * n <= usize::MAX,
            r@.len() == 8 * i,
            forall|j: int|
                0 <= j < r@.len() ==> #[trigger] r@[j] == candidate_node(
                    obstacles@[j / 8],
                    margin,
                    j % 8,
                ),
            forall|j: int| 0 <= j < r@.len() ==> pt_bounded(#[trigger] r@[j], candidate_bound()),
        decreases n - i,
    {
        let o = obstacles[i];
        let e = expand_rect(&o, margin);
        let mx = crate::geom::floor_div(o.x0 + o.x1, 2);
        let my = crate::geom::floor_div(o.y0 + o.y1, 2);
        r.push(Point { x: e.x0, y: e.y0 });
        r.push(Point { x: e.x1, y: e.y0 });
        r.push(Point { x: e.x1, y: e.y1 });
        r.push(Point { x: e.x0, y: e.y1 });
        r.push(Point { x: mx, y: o.y0 });
        r.push(Point { x: mx, y: o.y1 });
        r.push(Point { x: o.x0, y: my });
        r.push(Point { x: o.x1, y: my });
        proof {
            assert forall|j: int| 0 <= j < r@.len() implies #[trigger] r@[j] == candidate_node(
                obstacles@[j / 8],
                margin,
                j % 8,
            ) by {
                if j < 8 * i {
                } else {
                    assert(j / 8 == i && j % 8 == j - 8 * i) by (nonlinear_arith)
                        requires
                            8 * i <= j < 8 * i + 8,
                    ;
                }
            }
        }
        i += 1;
    }
    r
}

/// Whether the straight segment from `p0` to `p1` is collision-free with
/// respect to every obstacle, under the narrow-gap exception.
pub fn is_edge_valid(p0: &Point, p1: &Point, obstacles: &Vec<Rect>, margin: i64) -> (r: bool)
    requires
        pt_bounded(*p0, candidate_bound()),
        pt_bounded(*p1, candidate_bound()),
        all_rects_bounded(obstacles@, COORD_LIMIT as int),
        0 <= margin <= COORD_LIMIT,
    ensures
        r == edge_ok(*p0, *p1, obstacles@, margin),
{
    let n = obstacles.len();
    let mut k: usize = 0;
    while k < n
        invariant
            k <= n,
            n == obstacles@.len(),
            pt_bounded(*p0, candidate_bound()),
            pt_bounded(*p1, candidate_bound()),
            all_rects_bounded(obstacles@, COORD_LIMIT as int),
            0 <= margin <= COORD_LIMIT,
            forall|j: int| 0 <= j < k ==> obstacle_clear(*p0, *p1, #[trigger] obstacles@[j], margin),
        decreases n - k,
    {
        let expanded = expand_rect(&obstacles[k], margin);
        let seg = Segment { p1: *p0, p2: *p1 };
        if seg.intersect_rect(&expanded).is_some() {
            let seg2 = Segment { p1: *p0, p2: *p1 };
            if seg2.intersect_rect(&obstacles[k]).is_some() {
                assert(!obstacle_clear(*p0, *p1, obstacles@[k as int], margin));
                return false;
            }
        }
        k += 1;
    }
    true
}

/// Edge validity for an unordered node pair, evaluated in the fixed
/// low-index-to-high-index orientation, so that the graph is symmetric by
/// construction.
pub open spec fn pair_edge_ok(
    ns: Seq<Point>,
    obstacles: Seq<Rect>,
    margin: i64,
    u: int,
    v: int,
) -> bool {
    if u <= v {
        edge_ok(ns[u], ns[v], obstacles, margin)
    } else {
        edge_ok(ns[v], ns[u], obstacles, margin)
    }
}

pub open spec fn all_pts_bounded(ns: Seq<Point>, b: int) -> bool {
    forall|j: int| 0 <= j < ns.len() ==> pt_bounded(#[trigger] ns[j], b)
}

/// Build the navigation graph over start, goal and the candidate waypoints.
/// Node 0 is the start and node 1 the goal; an edge joins two distinct
/// nodes iff the straight segment between them is collision-free.
pub fn build_graph(
    candidate_nodes: &Vec<Point>,
    start: &Point,
    goal: &Point,
    obstacles: &Vec<Rect>,
    margin: i64,
) -> (g: Graph)
    requires
        pt_bounded(*start, candidate_bound()),
        pt_bounded(*goal, candidate_bound()),
        all_pts_bounded(candidate_nodes@, candidate_bound()),
        all_rects_bounded(obstacles@, COORD_LIMIT as int),
        0 <= margin <= COORD_LIMIT,
        candidate_nodes@.len() + 2 <= usize::MAX,
    ensures
        g.wf(),
        g.nodes@.len() == candidate_nodes@.len() + 2,
        g.nodes@[0] == *start,
        g.nodes@[1] == *goal,
        forall|j: int| 2 <= j < g.nodes@.len() ==> #[trigger] g.nodes@[j] == candidate_nodes@[j - 2],
        all_pts_bounded(g.nodes@, candidate_bound()),
        forall|u: int, v: int|
            0 <= u < g.nodes@.len() && 0 <= v < g.nodes@.len() ==> (#[trigger] g.has_edge(u, v)
                <==> (u != v && pair_edge_ok(g.nodes@, obstacles@, margin, u, v))),
        forall|u: int, k: int|
            0 <= u < g.adj@.len() && 0 <= k < g.adj@[u]@.len() ==> is_euclid_floor(
                g.nodes@[u],
                g.nodes@[(#[trigger] g.adj@[u]@[k]).to as int],
                g.adj@[u]@[k].cost,
            ),
{
    let mut nodes: Vec<Point> = Vec::new();
    nodes.push(*start);
    nodes.push(*goal);
    let cn = candidate_nodes.len();
    let mut c: usize = 0;
    while c < cn
        invariant
            c <= cn,
            cn == candidate_nodes@.len(),
            all_pts_bounded(candidate_nodes@, candidate_bound()),
            cn + 2 <= usize::MAX,
            nodes@.len() == c + 2,
            nodes@[0] == *start,
            nodes@[1] == *goal,
            pt_bounded(*start, candidate_bound()),
            pt_bounded(*goal, candidate_bound()),
            forall|j: int| 2 <= j < nodes@.len() ==> #[trigger] nodes@[j] == candidate_nodes@[j - 2],
        decreases cn - c,
    {
        nodes.push(candidate_nodes[c]);
        c += 1;
    }
    assert(all_pts_bounded(nodes@, candidate_bound()));

    let n = nodes.len();
    let mut adj: Vec<Vec<Edge>> = Vec::new();
    let mut u: usize = 0;
    while u < n
        invariant
            u <= n,
            n == nodes@.len(),
            all_pts_bounded(nodes@, candidate_bound()),
            all_rects_bounded(obstacles@, COORD_LIMIT as int),
            0 <= margin <= COORD_LIMIT,
            adj@.len() == u,
            forall|a: int, k: int|
                0 <= a < u && 0 <= k < adj@[a]@.len() ==> {
                    let e = #[trigger] adj@[a]@[k];
                    &&& e.to < n
                    &&& e.to != a
                    &&& pair_edge_ok(nodes@, obstacles@, margin, a, e.to as int)
                    &&& is_euclid_floor(nodes@[a], nodes@[e.to as int], e.cost)
                },
            forall|a: int, w: int|
                0 <= a < u && 0 <= w < n && w != a && pair_edge_ok(nodes@, obstacles@, margin, a, w)
                    ==> exists|k: int|
                    0 <= k < adj@[a]@.len() && (#[trigger] adj@[a]@[k]).to == w,
        decreases n - u,
    {
        let mut row: Vec<Edge> = Vec::new();
        let mut v: usize = 0;
        while v < n
            invariant
                v <= n,
                u < n,
                n == nodes@.len(),
                all_pts_bounded(nodes@, candidate_bound()),
                all_rects_bounded(obstacles@, COORD_LIMIT as int),
                0 <= margin <= COORD_LIMIT,
                forall|k: int|
                    0 <= k < row@.len() ==> {
                        let e = #[trigger] row@[k];
                        &&& e.to < v
                        &&& e.to != u
                        &&& pair_edge_ok(nodes@, obstacles@, margin, u as int, e.to as int)
                        &&& is_euclid_floor(nodes@[u as int], nodes@[e.to as int], e.cost)
                    },
                forall|w: int|
                    0 <= w < v && w != u as int && pair_edge_ok(
                        nodes@,
                        obstacles@,
                        margin,
                        u as int,
                        w,
                    ) ==> exists|k: int| 0 <= k < row@.len() && (#[trigger] row@[k]).to == w,
            decreases n - v,
        {
            if v != u {
                let (a, b) = if u < v {
                    (u, v)
                } else {
                    (v, u)
                };
                if is_edge_valid(&nodes[a], &nodes[b], obstacles, margin) {
                    let cost = euclid_dist(&nodes[u], &nodes[v]);
                    let ghost row0 = row@;
                    row.push(Edge { to: v, cost });
                    proof {
                        assert forall|w: int|
                            0 <= w < v as int + 1 && w != u as int && pair_edge_ok(
                                nodes@,
                                obstacles@,
                                margin,
                                u as int,
                                w,
                            ) implies exists|k: int|
                            0 <= k < row@.len() && (#[trigger] row@[k]).to == w by {
                            if w == v as int {
                                assert(row@[row@.len() - 1].to == w);
                            } else {
                                let k = choose|k: int|
                                    0 <= k < row0.len() && (#[trigger] row0[k]).to == w;
                                assert(row@[k].to == w);
                            }
                        }
                    }
                } else {
                    proof {
                        assert(!pair_edge_ok(nodes@, obstacles@, margin, u as int, v as int));
                    }
                }
            }
            v += 1;
        }
        let ghost rowg = row@;
        let ghost adj0 = adj@;
        adj.push(row);
        proof {
            assert forall|a: int, w: int|
                0 <= a < u as int + 1 && 0 <= w < n && w != a && pair_edge_ok(
                    nodes@,
                    obstacles@,
                    margin,
                    a,
                    w,
                ) implies exists|k: int|
                0 <= k < adj@[a]@.len() && (#[trigger] adj@[a]@[k]).to == w by {
                if a == u as int {
                    let k = choose|k: int| 0 <= k < rowg.len() && (#[trigger] rowg[k]).to == w;
                    assert(adj@[a]@[k].to == w);
                } else {
                    let k = choose|k: int|
                        0 <= k < adj0[a]@.len() && (#[trigger] adj0[a]@[k]).to == w;
                    assert(adj@[a]@[k].to == w);
                }
            }
        }
        u += 1;
    }
    let ghost nodesg = nodes@;
    let ghost adjg = adj@;
    let g = Graph { nodes, adj };
    proof {
        assert(g.nodes@ == nodesg);
        assert(g.adj@ == adjg);
        assert forall|uu: int, vv: int|
            0 <= uu < g.nodes@.len() && 0 <= vv < g.nodes@.len() implies (#[trigger] g.has_edge(
            uu,
            vv,
        ) <==> (uu != vv && pair_edge_ok(g.nodes@, obstacles@, margin, uu, vv))) by {
            if uu != vv && pair_edge_ok(nodesg, obstacles@, margin, uu, vv) {
                let k = choose|k: int|
                    0 <= k < adjg[uu]@.len() && (#[trigger] adjg[uu]@[k]).to == vv;
                assert(g.adj@[uu]@[k].to == vv);
                assert(g.has_edge(uu, vv));
            }
            if g.has_edge(uu, vv) {
                let k = choose|k: int|
                    0 <= k < g.adj@[uu]@.len() && (#[trigger] g.adj@[uu]@[k]).to == vv;
                assert(adjg[uu]@[k].to == vv);
            }
        }
    }
    g
}

} // verus!
