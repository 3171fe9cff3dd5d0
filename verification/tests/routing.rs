use graphyr::cell::CellId;
use graphyr::geom::{Point, Rect};
use graphyr::graph::{build_graph, extract_candidate_nodes, is_edge_valid, isqrt};
use graphyr::route::{compute_path, route_arrow, PositionMap};

#[test]
fn blocked_edge_is_rejected() {
    // Obstacle {4,4,6,6} with margin 2 expands to {2,2,8,8}; a segment
    // through (5,5) must be rejected.
    let obstacles = vec![Rect { x0: 4, y0: 4, x1: 6, y1: 6 }];
    let a = Point { x: 0, y: 5 };
    let b = Point { x: 10, y: 5 };
    assert!(!is_edge_valid(&a, &b, &obstacles, 2));
}

#[test]
fn clear_edge_is_accepted() {
    let obstacles = vec![Rect { x0: 4, y0: 4, x1: 6, y1: 6 }];
    let a = Point { x: 20, y: 20 };
    let b = Point { x: 30, y: 20 };
    assert!(is_edge_valid(&a, &b, &obstacles, 2));
}

#[test]
fn narrow_gap_edge_is_accepted() {
    // Two obstacles 2 units apart with margin 2: the gap is narrower than
    // twice the margin, yet a segment through it crosses only the expanded
    // rectangles, not the originals, and must stay valid.
    let obstacles = vec![
        Rect { x0: 0, y0: 0, x1: 4, y1: 10 },
        Rect { x0: 6, y0: 0, x1: 10, y1: 10 },
    ];
    let a = Point { x: 5, y: -5 };
    let b = Point { x: 5, y: 15 };
    assert!(is_edge_valid(&a, &b, &obstacles, 2));
}

#[test]
fn candidate_nodes_eight_per_obstacle() {
    let obstacles = vec![Rect { x0: 4, y0: 4, x1: 6, y1: 6 }];
    let nodes = extract_candidate_nodes(&obstacles, 2);
    assert_eq!(nodes.len(), 8);
    // Corners of the expanded rectangle.
    assert_eq!(nodes[0], Point { x: 2, y: 2 });
    assert_eq!(nodes[1], Point { x: 8, y: 2 });
    assert_eq!(nodes[2], Point { x: 8, y: 8 });
    assert_eq!(nodes[3], Point { x: 2, y: 8 });
    // Midpoints of the original edges.
    assert_eq!(nodes[4], Point { x: 5, y: 4 });
    assert_eq!(nodes[5], Point { x: 5, y: 6 });
    assert_eq!(nodes[6], Point { x: 4, y: 5 });
    assert_eq!(nodes[7], Point { x: 6, y: 5 });
}

#[test]
fn graph_start_and_goal_first() {
    let obstacles = vec![Rect { x0: 4, y0: 4, x1: 6, y1: 6 }];
    let cand = extract_candidate_nodes(&obstacles, 2);
    let start = Point { x: -10, y: 5 };
    let goal = Point { x: 20, y: 5 };
    let g = build_graph(&cand, &start, &goal, &obstacles, 2);
    assert_eq!(g.nodes.len(), 10);
    assert_eq!(g.nodes[0], start);
    assert_eq!(g.nodes[1], goal);
    assert_eq!(g.adj.len(), 10);
}

#[test]
fn straight_route_without_obstacles() {
    // With zero obstacles the route is exactly the straight line, with no
    // detour waypoints.
    let obstacles: Vec<Rect> = Vec::new();
    let start = Point { x: 0, y: 0 };
    let goal = Point { x: 50, y: 40 };
    let path = compute_path(&obstacles, &start, &goal, 5).unwrap();
    assert_eq!(path, vec![start, goal]);
}

#[test]
fn route_detours_around_obstacle() {
    let obstacles = vec![Rect { x0: 40, y0: -50, x1: 60, y1: 50 }];
    let start = Point { x: 0, y: 0 };
    let goal = Point { x: 100, y: 0 };
    let path = compute_path(&obstacles, &start, &goal, 4).unwrap();
    assert!(path.len() > 2);
    assert_eq!(path[0], start);
    assert_eq!(path[path.len() - 1], goal);
}

#[test]
fn enclosed_start_yields_none() {
    // The start point sits strictly inside an obstacle and the margin is
    // zero, so every segment leaving the obstacle crosses it: no route
    // exists and the caller's fallback runs without panicking.
    let obstacles = vec![Rect { x0: 4, y0: 4, x1: 6, y1: 6 }];
    let start = Point { x: 5, y: 5 };
    let goal = Point { x: 50, y: 5 };
    let route = compute_path(&obstacles, &start, &goal, 0);
    let fallback = match route {
        Some(path) => path,
        None => vec![start, goal],
    };
    assert_eq!(fallback, vec![start, goal]);
}

#[test]
fn isqrt_exact_values() {
    assert_eq!(isqrt(0), 0);
    assert_eq!(isqrt(1), 1);
    assert_eq!(isqrt(2), 1);
    assert_eq!(isqrt(4), 2);
    assert_eq!(isqrt(99), 9);
    assert_eq!(isqrt(100), 10);
    assert_eq!(isqrt(1_000_000_000_000), 1_000_000);
}

#[test]
fn route_arrow_between_positioned_cells() {
    let mut pm = PositionMap::new();
    pm.insert(CellId(1), Rect { x0: 0, y0: 0, x1: 10, y1: 10 });
    pm.insert(CellId(2), Rect { x0: 40, y0: 0, x1: 50, y1: 10 });
    let path = route_arrow(&pm, CellId(1), CellId(2), 3).unwrap();
    // The route starts on the source cell's boundary and ends on the
    // target cell's boundary.
    assert_eq!(path[0], Point { x: 10, y: 5 });
    assert_eq!(path[path.len() - 1], Point { x: 40, y: 5 });
}

#[test]
fn route_arrow_avoids_other_cell() {
    let mut pm = PositionMap::new();
    pm.insert(CellId(1), Rect { x0: 0, y0: 0, x1: 10, y1: 10 });
    pm.insert(CellId(2), Rect { x0: 90, y0: 0, x1: 100, y1: 10 });
    pm.insert(CellId(3), Rect { x0: 45, y0: -40, x1: 55, y1: 40 });
    let path = route_arrow(&pm, CellId(1), CellId(2), 3).unwrap();
    assert!(path.len() > 2);
}

#[test]
fn route_arrow_dangling_endpoint_skips() {
    // A dangling endpoint (cell not rendered) skips the arrow instead of
    // panicking.
    let mut pm = PositionMap::new();
    pm.insert(CellId(1), Rect { x0: 0, y0: 0, x1: 10, y1: 10 });
    assert!(route_arrow(&pm, CellId(1), CellId(7), 3).is_none());
    assert!(route_arrow(&pm, CellId(7), CellId(1), 3).is_none());
}

#[test]
fn position_map_lookup() {
    let mut pm = PositionMap::new();
    let r1 = Rect { x0: 0, y0: 0, x1: 10, y1: 10 };
    pm.insert(CellId(5), r1);
    assert_eq!(pm.get(CellId(5)), Some(r1));
    assert_eq!(pm.get(CellId(6)), None);
    pm.clear();
    assert_eq!(pm.get(CellId(5)), None);
}
