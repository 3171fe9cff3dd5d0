//! End-to-end routing: clip, build the visibility graph, search, and emit
//! the polyline.

use vstd::prelude::*;

use crate::astar::{astar, distinct_seq, is_path, reachable};
use crate::cell::CellId;
use crate::geom::{
    pt_bounded, rect_bounded, rect_wf, seg_rect_crossing, Point, Rect, Segment, COORD_LIMIT,
};
use crate::graph::{
    all_rects_bounded, build_graph, candidate_node, edge_ok, extract_candidate_nodes,
    pair_edge_ok, seg_clear,
};

verus! {

/// The node set of the routing graph for a given obstacle set: the start
/// point, the goal point, then eight candidate waypoints per obstacle.
pub open spec fn route_nodes(
    obstacles: Seq<Rect>,
    start: Point,
    goal: Point,
    margin: i64,
) -> Seq<Point> {
    Seq::new(
        (2 + 8 * obstacles.len()) as nat,
        |j: int|
            if j == 0 {
                start
            } else if j == 1 {
                goal
            } else {
                candidate_node(obstacles[(j - 2) / 8], margin, (j - 2) % 8)
            },
    )
}

/// `p` is a sequence of node indices describing a collision-free route
/// from the start node (index 0) to the goal node (index 1), visiting no
/// node twice.
pub open spec fn route_path_ok(
    obstacles: Seq<Rect>,
    start: Point,
    goal: Point,
    margin: i64,
    p: Seq<int>,
) -> bool {
    let ns = route_nodes(obstacles, start, goal, margin);
    &&& p.len() >= 1
    &&& p[0] == 0
    &&& p[p.len() - 1] == 1
    &&& forall|i: int| 0 <= i < p.len() ==> 0 <= #[trigger] p[i] < ns.len()
    &&& distinct_seq(p)
    &&& forall|i: int|
        0 <= i < p.len() - 1 ==> pair_edge_ok(ns, obstacles, margin, #[trigger] p[i], p[i + 1])
}

pub open spec fn route_exists(obstacles: Seq<Rect>, start: Point, goal: Point, margin: i64) -> bool {
    exists|p: Seq<int>| route_path_ok(obstacles, start, goal, margin, p)
}

/// Compute a collision-avoiding polyline from `start` to `goal`, treating
/// every rectangle in `obstacles` as an obstacle inflated by `margin`.
/// Returns the ordered point sequence of the chosen route, or `None`
/// exactly when no collision-free route exists.
pub fn compute_path(
    obstacles: &Vec<Rect>,
    start: &Point,
    goal: &Point,
    margin: i64,
) -> (r: Option<Vec<Point>>)
    requires
        all_rects_bounded(obstacles@, COORD_LIMIT as int),
        pt_bounded(*start, COORD_LIMIT as int),
        pt_bounded(*goal, COORD_LIMIT as int),
        0 <= margin <= COORD_LIMIT,
        8 * obstacles@.len() + 2 <= usize::MAX,
    ensures
        r is Some <==> route_exists(obstacles@, *start, *goal, margin),
        r matches Some(pts) ==> exists|p: Seq<int>|
            route_path_ok(obstacles@, *start, *goal, margin, p) && pts@ == p.map_values(
                |i: int| route_nodes(obstacles@, *start, *goal, margin)[i],
            ),
        r matches Some(pts) ==> pts@.len() >= 1 && pts@[0] == *start && pts@[pts@.len() - 1]
            == *goal,
        obstacles@.len() == 0 ==> (r matches Some(pts) && pts@ == seq![*start, *goal]),
{
    let candidates = extract_candidate_nodes(obstacles, margin);
    let g = build_graph(&candidates, start, goal, obstacles, margin);
    let ghost ns = route_nodes(obstacles@, *start, *goal, margin);
    proof {
        assert(g.nodes@ =~= ns);
    }
    match astar(&g, 0, 1) {
        Some(idxs) => {
            let ghost pidx = idxs@.map_values(|x: usize| x as int);
            let m = idxs.len();
            let mut pts: Vec<Point> = Vec::new();
            let mut i: usize = 0;
            while i < m
                invariant
                    m == idxs@.len(),
                    i <= m,
                    g.wf(),
                    pidx == idxs@.map_values(|x: usize| x as int),
                    forall|j: int| 0 <= j < pidx.len() ==> 0 <= #[trigger] pidx[j] < g.nodes@.len(),
                    pts@.len() == i,
                    forall|j: int| 0 <= j < i ==> #[trigger] pts@[j] == g.nodes@[pidx[j]],
                decreases m - i,
            {
                let ix = idxs[i];
                proof {
                    assert(pidx[i as int] == ix as int);
                }
                pts.push(g.nodes[ix]);
                i += 1;
            }
            proof {
                assert(route_path_ok(obstacles@, *start, *goal, margin, pidx)) by {
                    assert(is_path(g, pidx, 0, 1));
                    assert forall|j: int| 0 <= j < pidx.len() - 1 implies pair_edge_ok(
                        ns,
                        obstacles@,
                        margin,
                        #[trigger] pidx[j],
                        pidx[j + 1],
                    ) by {
                        assert(g.has_edge(pidx[j], pidx[j + 1]));
                    }
                }
                assert(pts@ =~= pidx.map_values(
                    |i: int| route_nodes(obstacles@, *start, *goal, margin)[i],
                ));
                assert(pts@[0] == *start);
                assert(pts@[pts@.len() - 1] == *goal);
                if obstacles@.len() == 0 {
                    assert(obstacles@ =~= Seq::<Rect>::empty());
                    lemma_no_obstacle_route(*start, *goal, margin);
                    assert(pidx =~= seq![0int, 1int]);
                    assert(pts@ =~= seq![*start, *goal]);
                }
            }
            Some(pts)
        },
        None => {
            proof {
                assert forall|p: Seq<int>|
                    !route_path_ok(obstacles@, *start, *goal, margin, p) by {
                    if route_path_ok(obstacles@, *start, *goal, margin, p) {
                        assert forall|j: int| 0 <= j < p.len() - 1 implies g.has_edge(
                            #[trigger] p[j],
                            p[j + 1],
                        ) by {
                            assert(pair_edge_ok(ns, obstacles@, margin, p[j], p[j + 1]));
                            assert(p[j] != p[j + 1]);
                        }
                        assert(is_path(g, p, 0, 1));
                        assert(reachable(g, 0, 1));
                    }
                }
                assert(!route_exists(obstacles@, *start, *goal, margin));
                if obstacles@.len() == 0 {
                    assert(obstacles@ =~= Seq::<Rect>::empty());
                    lemma_no_obstacle_route(*start, *goal, margin);
                }
            }
            None
        },
    }
}

/// The screen rectangles of the currently rendered cells, keyed by cell
/// identity; rebuilt on every layout pass. Lookup is fallible: an arrow
/// endpoint whose cell is not rendered is skipped, never indexed.
pub struct PositionMap {
    pub entries: Vec<(CellId, Rect)>,
}

/// The first rectangle recorded under `id`, if any.
pub open spec fn pm_find(entries: Seq<(CellId, Rect)>, id: CellId) -> Option<Rect>
    decreases entries.len(),
{
    if entries.len() == 0 {
        None
    } else if entries[0].0 == id {
        Some(entries[0].1)
    } else {
        pm_find(entries.skip(1), id)
    }
}

impl PositionMap {
    /// Identities are unique and every recorded rectangle is proper and
    /// within the coordinate bound.
    pub open spec fn wf(self) -> bool {
        &&& forall|i: int, j: int|
            #![trigger self.entries@[i], self.entries@[j]]
            0 <= i < j < self.entries@.len() ==> self.entries@[i].0 != self.entries@[j].0
        &&& forall|i: int|
            0 <= i < self.entries@.len() ==> rect_wf((#[trigger] self.entries@[i]).1)
                && rect_bounded(self.entries@[i].1, COORD_LIMIT as int)
    }

    pub fn new() -> (r: PositionMap)
        ensures
            r.entries@.len() == 0,
            r.wf(),
    {
        PositionMap { entries: Vec::new() }
    }

    /// Forget all positions; called at the start of each layout pass.
    pub fn clear(&mut self)
        ensures
            final(self).entries@.len() == 0,
            final(self).wf(),
    {
        self.entries.clear();
    }

    /// Record the rectangle of one rendered cell. Each cell is visited
    /// once per layout pass, so its identity is not yet present.
    pub fn insert(&mut self, id: CellId, rect: Rect)
        requires
            old(self).wf(),
            pm_find(old(self).entries@, id) is None,
            rect_wf(rect),
            rect_bounded(rect, COORD_LIMIT as int),
        ensures
            final(self).wf(),
            final(self).entries@ == old(self).entries@.push((id, rect)),
            pm_find(final(self).entries@, id) == Some(rect),
    {
        let ghost e0 = self.entries@;
        self.entries.push((id, rect));
        proof {
            lemma_pm_absent(e0, id);
            assert forall|i: int, j: int|
                #![trigger self.entries@[i], self.entries@[j]]
                0 <= i < j < self.entries@.len() implies self.entries@[i].0
                != self.entries@[j].0 by {
                if j == self.entries@.len() - 1 {
                    assert(self.entries@[i] == e0[i]);
                }
            }
            lemma_pm_find_push(e0, id, rect);
        }
    }

    /// Fallible lookup of a cell's rectangle.
    pub fn get(&self, id: CellId) -> (r: Option<Rect>)
        ensures
            r == pm_find(self.entries@, id),
    {
        let n = self.entries.len();
        proof {
            assert(self.entries@.skip(0) =~= self.entries@);
        }
        let mut i: usize = 0;
        while i < n
            invariant
                i <= n,
                n == self.entries@.len(),
                pm_find(self.entries@, id) == pm_find(self.entries@.skip(i as int), id),
            decreases n - i,
        {
            let (k, rect) = self.entries[i];
            proof {
                assert(self.entries@.skip(i as int)[0] == self.entries@[i as int]);
            }
            if k == id {
                return Some(rect);
            }
            proof {
                assert(self.entries@.skip(i as int).skip(1) =~= self.entries@.skip(i as int + 1));
            }
            i += 1;
        }
        proof {
            assert(self.entries@.skip(n as int) =~= Seq::<(CellId, Rect)>::empty());
        }
        None
    }
}

/// An identity that is the first match nowhere in the sequence does not
/// occur in it.
proof fn lemma_pm_absent(entries: Seq<(CellId, Rect)>, id: CellId)
    requires
        pm_find(entries, id) is None,
    ensures
        forall|i: int| 0 <= i < entries.len() ==> (#[trigger] entries[i]).0 != id,
    decreases entries.len(),
{
    if entries.len() > 0 {
        lemma_pm_absent(entries.skip(1), id);
        assert forall|i: int| 0 <= i < entries.len() implies (#[trigger] entries[i]).0 != id by {
            if i > 0 {
                assert(entries.skip(1)[i - 1] == entries[i]);
            }
        }
    }
}

/// Appending an entry makes its identity findable and leaves other
/// lookups unchanged.
proof fn lemma_pm_find_push(entries: Seq<(CellId, Rect)>, id: CellId, rect: Rect)
    requires
        pm_find(entries, id) is None,
    ensures
        pm_find(entries.push((id, rect)), id) == Some(rect),
    decreases entries.len(),
{
    if entries.len() == 0 {
        assert(entries.push((id, rect))[0] == (id, rect));
    } else {
        lemma_pm_find_push(entries.skip(1), id, rect);
        assert(entries.push((id, rect)).skip(1) =~= entries.skip(1).push((id, rect)));
    }
}

/// The obstacle set one arrow sees: the rectangles of every positioned
/// cell other than its two endpoints.
pub open spec fn other_rects(entries: Seq<(CellId, Rect)>, from: CellId, to: CellId) -> Seq<Rect>
    decreases entries.len(),
{
    if entries.len() == 0 {
        Seq::empty()
    } else {
        let rest = other_rects(entries.drop_last(), from, to);
        let last = entries.last();
        if last.0 != from && last.0 != to {
            rest.push(last.1)
        } else {
            rest
        }
    }
}

/// The point at the middle of a rectangle, rounded down to the unit grid.
pub open spec fn center_of(r: Rect) -> Point {
    Point { x: ((r.x0 + r.x1) / 2) as i64, y: ((r.y0 + r.y1) / 2) as i64 }
}

/// The line between the two endpoint rectangle centers.
pub open spec fn center_segment(fr: Rect, tr: Rect) -> Segment {
    Segment { p1: center_of(fr), p2: center_of(tr) }
}

/// Clip the segment joining the two endpoint rectangle centers against
/// each endpoint rectangle, yielding the route's start and goal points on
/// the cells' boundaries.
fn endpoint_crossings(fr: &Rect, tr: &Rect) -> (r: Option<(Point, Point)>)
    requires
        rect_wf(*fr),
        rect_wf(*tr),
        rect_bounded(*fr, COORD_LIMIT as int),
        rect_bounded(*tr, COORD_LIMIT as int),
    ensures
        ({
            let seg = center_segment(*fr, *tr);
            match (seg_rect_crossing(seg, *fr), seg_rect_crossing(seg, *tr)) {
                (Some(fc), Some(tc)) => r == Some((fc, tc)) && pt_bounded(fc, COORD_LIMIT as int)
                    && pt_bounded(tc, COORD_LIMIT as int),
                _ => r is None,
            }
        }),
{
    let fcx = crate::geom::floor_div(fr.x0 + fr.x1, 2);
    let fcy = crate::geom::floor_div(fr.y0 + fr.y1, 2);
    let tcx = crate::geom::floor_div(tr.x0 + tr.x1, 2);
    let tcy = crate::geom::floor_div(tr.y0 + tr.y1, 2);
    let seg = Segment { p1: Point { x: fcx, y: fcy }, p2: Point { x: tcx, y: tcy } };
    proof {
        assert(seg.p1 == center_of(*fr));
        assert(seg.p2 == center_of(*tr));
    }
    let from_cross = match seg.intersect_rect(fr) {
        Some(p) => p,
        None => {
            return None;
        },
    };
    let seg2 = Segment { p1: Point { x: fcx, y: fcy }, p2: Point { x: tcx, y: tcy } };
    let to_cross = match seg2.intersect_rect(tr) {
        Some(p) => p,
        None => {
            return None;
        },
    };
    Some((from_cross, to_cross))
}

/// Collect the rectangles of every positioned cell other than the two
/// endpoints: the obstacle set one arrow sees.
fn gather_obstacles(positions: &PositionMap, from: CellId, to: CellId) -> (obstacles: Vec<Rect>)
    requires
        positions.wf(),
    ensures
        obstacles@ == other_rects(positions.entries@, from, to),
        obstacles@.len() <= positions.entries@.len(),
        all_rects_bounded(obstacles@, COORD_LIMIT as int),
{
    let n = positions.entries.len();
    let mut obstacles: Vec<Rect> = Vec::new();
    let mut i: usize = 0;
    while i < n
        invariant
            i <= n,
            n == positions.entries@.len(),
            positions.wf(),
            obstacles@ == other_rects(positions.entries@.subrange(0, i as int), from, to),
            obstacles@.len() <= i,
        decreases n - i,
    {
        let ghost pre = positions.entries@.subrange(0, i as int);
        let (k, rect) = positions.entries[i];
        if !(k == from) && !(k == to) {
            obstacles.push(rect);
        }
        proof {
            let cur = positions.entries@.subrange(0, i as int + 1);
            assert(cur.drop_last() =~= pre);
            assert(cur.last() == positions.entries@[i as int]);
        }
        i += 1;
    }
    proof {
        assert(positions.entries@.subrange(0, n as int) =~= positions.entries@);
        lemma_other_rects_bounded(positions.entries@, from, to);
    }
    obstacles
}

/// Route one arrow of the paint pass. The endpoint rectangles come from
/// the position map (an absent endpoint skips the arrow); the crossing
/// points of the center segment with the endpoint rectangles become the
/// route's start and goal; every other positioned rectangle is an
/// obstacle.
/// Search for a route between two boundary points against a fixed
/// obstacle set, and hand back the polyline.
#[verifier::rlimit(100)]
#[verifier::spinoff_prover]
fn finish_route(obstacles: &Vec<Rect>, start: &Point, goal: &Point, margin: i64) -> (r: Option<
    Vec<Point>,
>)
    requires
        all_rects_bounded(obstacles@, COORD_LIMIT as int),
        pt_bounded(*start, COORD_LIMIT as int),
        pt_bounded(*goal, COORD_LIMIT as int),
        0 <= margin <= COORD_LIMIT,
        8 * obstacles@.len() + 2 <= usize::MAX,
    ensures
        r is Some <==> route_exists(obstacles@, *start, *goal, margin),
        r matches Some(pts) ==> pts@.len() >= 1 && pts@[0] == *start && pts@[pts@.len() - 1]
            == *goal && forall|i: int|
            0 <= i < pts@.len() - 1 ==> seg_clear(
                #[trigger] pts@[i],
                pts@[i + 1],
                obstacles@,
                margin,
            ),
{
    let r = compute_path(obstacles, start, goal, margin);
    proof {
        if r is Some {
            let pts = r->Some_0;
            assert forall|i: int| 0 <= i < pts@.len() - 1 implies seg_clear(
                #[trigger] pts@[i],
                pts@[i + 1],
                obstacles@,
                margin,
            ) by {
                let p = choose|p: Seq<int>|
                    route_path_ok(obstacles@, *start, *goal, margin, p) && pts@ == p.map_values(
                        |k: int| route_nodes(obstacles@, *start, *goal, margin)[k],
                    );
                let ns = route_nodes(obstacles@, *start, *goal, margin);
                assert(pts@[i] == ns[p[i]]);
                assert(pts@[i + 1] == ns[p[i + 1]]);
                assert(pair_edge_ok(ns, obstacles@, margin, p[i], p[i + 1]));
            }
        }
    }
    r
}

/// Route one arrow of the paint pass. The endpoint rectangles come from
/// the position map (an absent endpoint skips the arrow); the crossing
/// points of the center segment with the endpoint rectangles become the
/// route's start and goal; every other positioned rectangle is an
/// obstacle.
#[verifier::rlimit(100)]
pub fn route_arrow(positions: &PositionMap, from: CellId, to: CellId, margin: i64) -> (r: Option<
    Vec<Point>,
>)
    requires
        positions.wf(),
        0 <= margin <= COORD_LIMIT,
        8 * positions.entries@.len() + 2 <= usize::MAX,
    ensures
        ({
            let e = positions.entries@;
            match (pm_find(e, from), pm_find(e, to)) {
                (Some(fr), Some(tr)) => {
                    let seg = center_segment(fr, tr);
                    match (seg_rect_crossing(seg, fr), seg_rect_crossing(seg, tr)) {
                        (Some(fc), Some(tc)) => {
                            &&& (r is Some <==> route_exists(
                                other_rects(e, from, to),
                                fc,
                                tc,
                                margin,
                            ))
                            &&& r matches Some(pts) ==> pts@.len() >= 1 && pts@[0] == fc
                                && pts@[pts@.len() - 1] == tc && forall|i: int|
                                0 <= i < pts@.len() - 1 ==> seg_clear(
                                    #[trigger] pts@[i],
                                    pts@[i + 1],
                                    other_rects(e, from, to),
                                    margin,
                                )
                        },
                        _ => r is None,
                    }
                },
                _ => r is None,
            }
        }),
{
    let fr = match positions.get(from) {
        Some(rect) => rect,
        None => {
            return None;
        },
    };
    let tr = match positions.get(to) {
        Some(rect) => rect,
        None => {
            return None;
        },
    };
    proof {
        lemma_pm_found_bounds(positions.entries@, from);
        lemma_pm_found_bounds(positions.entries@, to);
    }
    let (from_cross, to_cross) = match endpoint_crossings(&fr, &tr) {
        Some(pair) => pair,
        None => {
            return None;
        },
    };
    let obstacles = gather_obstacles(positions, from, to);
    finish_route(&obstacles, &from_cross, &to_cross, margin)
}

/// A rectangle the position map hands out is proper and bounded.
proof fn lemma_pm_found_bounds(entries: Seq<(CellId, Rect)>, id: CellId)
    requires
        forall|i: int|
            0 <= i < entries.len() ==> rect_wf((#[trigger] entries[i]).1) && rect_bounded(
                entries[i].1,
                COORD_LIMIT as int,
            ),
    ensures
        pm_find(entries, id) matches Some(rc) ==> rect_wf(rc) && rect_bounded(
            rc,
            COORD_LIMIT as int,
        ),
    decreases entries.len(),
{
    if entries.len() > 0 && entries[0].0 != id {
        assert forall|i: int|
            0 <= i < entries.skip(1).len() implies rect_wf(
            (#[trigger] entries.skip(1)[i]).1,
        ) && rect_bounded(entries.skip(1)[i].1, COORD_LIMIT as int) by {
            assert(entries.skip(1)[i] == entries[i + 1]);
        }
        lemma_pm_found_bounds(entries.skip(1), id);
    }
}

/// Every obstacle rectangle of an arrow comes from the position map and
/// is therefore bounded.
proof fn lemma_other_rects_bounded(entries: Seq<(CellId, Rect)>, from: CellId, to: CellId)
    requires
        forall|i: int|
            0 <= i < entries.len() ==> rect_wf((#[trigger] entries[i]).1) && rect_bounded(
                entries[i].1,
                COORD_LIMIT as int,
            ),
    ensures
        all_rects_bounded(other_rects(entries, from, to), COORD_LIMIT as int),
    decreases entries.len(),
{
    if entries.len() > 0 {
        assert forall|i: int|
            0 <= i < entries.drop_last().len() implies rect_wf(
            (#[trigger] entries.drop_last()[i]).1,
        ) && rect_bounded(entries.drop_last()[i].1, COORD_LIMIT as int) by {
            assert(entries.drop_last()[i] == entries[i]);
        }
        lemma_other_rects_bounded(entries.drop_last(), from, to);
        let rest = other_rects(entries.drop_last(), from, to);
        let full = other_rects(entries, from, to);
        assert forall|i: int|
            0 <= i < full.len() implies rect_bounded(#[trigger] full[i], COORD_LIMIT as int) by {
            if entries.last().0 != from && entries.last().0 != to {
                if i < rest.len() {
                    assert(full[i] == rest[i]);
                } else {
                    assert(full[i] == entries.last().1);
                }
            } else {
                assert(full[i] == rest[i]);
            }
        }
    }
}

/// With no obstacles, the routing graph has only the start and goal nodes,
/// the straight edge between them is collision-free, and every acceptable
/// route is exactly that straight line: a returned polyline holds no detour
/// waypoints.
pub proof fn lemma_no_obstacle_route(start: Point, goal: Point, margin: i64)
    ensures
        route_exists(Seq::<Rect>::empty(), start, goal, margin),
        forall|p: Seq<int>|
            route_path_ok(Seq::<Rect>::empty(), start, goal, margin, p) ==> p =~= seq![0int, 1int],
{
    let obs = Seq::<Rect>::empty();
    let ns = route_nodes(obs, start, goal, margin);
    assert(ns.len() == 2);
    let w = seq![0int, 1int];
    assert(w.len() == 2 && w[0] == 0 && w[1] == 1);
    assert(route_path_ok(obs, start, goal, margin, w)) by {
        assert(edge_ok(ns[0], ns[1], obs, margin));
    }
    assert forall|p: Seq<int>|
        route_path_ok(obs, start, goal, margin, p) implies p =~= seq![0int, 1int] by {
        assert(p[0] == 0 && p[p.len() - 1] == 1);
        if p.len() >= 3 {
            // Three pairwise distinct indices cannot fit in a two-node graph.
            assert(p[0] != p[1] && p[0] != p[2] && p[1] != p[2]);
            assert(0 <= p[1] < 2 && 0 <= p[2] < 2);
            assert(false);
        }
        assert(p.len() == 2);
    }
}

} // verus!
