use graphyr::geom::{expand_rect, Point, Rect, Segment};

#[test]
fn exit_point_from_inside() {
    // Start inside, end outside: the exit point on the boundary is reported.
    let rect = Rect { x0: 0, y0: 0, x1: 10, y1: 10 };
    let seg = Segment { p1: Point { x: 5, y: 5 }, p2: Point { x: 20, y: 5 } };
    assert_eq!(seg.intersect_rect(&rect), Some(Point { x: 10, y: 5 }));
}

#[test]
fn entry_point_from_outside() {
    let rect = Rect { x0: 0, y0: 0, x1: 10, y1: 10 };
    let seg = Segment { p1: Point { x: -10, y: 5 }, p2: Point { x: 5, y: 5 } };
    assert_eq!(seg.intersect_rect(&rect), Some(Point { x: 0, y: 5 }));
}

#[test]
fn both_endpoints_inside_is_none() {
    // The exit would occur past the end of the segment.
    let rect = Rect { x0: 0, y0: 0, x1: 10, y1: 10 };
    let seg = Segment { p1: Point { x: 2, y: 2 }, p2: Point { x: 8, y: 8 } };
    assert_eq!(seg.intersect_rect(&rect), None);
}

#[test]
fn disjoint_segment_is_none() {
    let rect = Rect { x0: 0, y0: 0, x1: 10, y1: 10 };
    let seg = Segment { p1: Point { x: 20, y: 20 }, p2: Point { x: 30, y: 25 } };
    assert_eq!(seg.intersect_rect(&rect), None);
}

#[test]
fn diagonal_crossing() {
    let rect = Rect { x0: 0, y0: 0, x1: 10, y1: 10 };
    let seg = Segment { p1: Point { x: -5, y: 5 }, p2: Point { x: 5, y: 5 } };
    assert_eq!(seg.intersect_rect(&rect), Some(Point { x: 0, y: 5 }));
    let seg2 = Segment { p1: Point { x: 5, y: 5 }, p2: Point { x: 5, y: 25 } };
    assert_eq!(seg2.intersect_rect(&rect), Some(Point { x: 5, y: 10 }));
}

#[test]
fn tangent_along_edge_is_none() {
    // A segment running exactly along a rectangle edge never blocks.
    let rect = Rect { x0: 0, y0: 0, x1: 10, y1: 10 };
    let seg = Segment { p1: Point { x: 0, y: -5 }, p2: Point { x: 0, y: 15 } };
    assert_eq!(seg.intersect_rect(&rect), None);
    let seg2 = Segment { p1: Point { x: -5, y: 10 }, p2: Point { x: 15, y: 10 } };
    assert_eq!(seg2.intersect_rect(&rect), None);
}

#[test]
fn degenerate_segment_is_none() {
    let rect = Rect { x0: 0, y0: 0, x1: 10, y1: 10 };
    let seg = Segment { p1: Point { x: 5, y: 5 }, p2: Point { x: 5, y: 5 } };
    assert_eq!(seg.intersect_rect(&rect), None);
}

#[test]
fn expand_rect_grows_all_sides() {
    let rect = Rect { x0: 4, y0: 4, x1: 6, y1: 6 };
    assert_eq!(expand_rect(&rect, 2), Rect { x0: 2, y0: 2, x1: 8, y1: 8 });
}
