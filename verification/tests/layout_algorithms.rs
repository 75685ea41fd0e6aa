use libreda_db::layout::algorithms::{decompose_rectangles, REdgeI, REdgeOrientation, RectI};

/// The edges of the polygon through `points`, closed from the last point back to the first.
fn edges_of(points: &[(i32, i32)]) -> Vec<REdgeI> {
    let n = points.len();
    (0..n)
        .map(|i| {
            let p = points[i];
            let q = points[(i + 1) % n];
            if p.1 == q.1 {
                REdgeI { start: p.0, end: q.0, offset: p.1, orientation: REdgeOrientation::Horizontal }
            } else {
                REdgeI { start: p.1, end: q.1, offset: p.0, orientation: REdgeOrientation::Vertical }
            }
        })
        .collect()
}

fn reversed(points: &[(i32, i32)]) -> Vec<(i32, i32)> {
    points.iter().rev().cloned().collect()
}

fn rect(x0: i32, y0: i32, x1: i32, y1: i32) -> RectI {
    RectI { x0, y0, x1, y1 }
}

#[test]
fn test_decompose_rectangles_trivial() {
    let empty: Vec<(i32, i32)> = vec![];
    let rects = decompose_rectangles(&edges_of(&empty));
    assert_eq!(rects, vec![]);

    // Test with reversed polygon.
    let square = vec![(0, 0), (2, 0), (2, 2), (0, 2)];
    let rects = decompose_rectangles(&edges_of(&reversed(&square)));
    assert_eq!(rects, vec![rect(0, 0, 2, 2)]);
}

#[test]
fn test_decompose_rectangles() {
    //    +--+
    //    |  |
    // +--+  |
    // |     |
    // +-----+
    let poly = vec![(0, 0), (2, 0), (2, 2), (1, 2), (1, 1), (0, 1)];
    let rects = decompose_rectangles(&edges_of(&poly));
    assert_eq!(rects, vec![rect(0, 0, 2, 1), rect(1, 1, 2, 2)]);

    // Test with reversed polygon.
    let rects = decompose_rectangles(&edges_of(&reversed(&poly)));
    assert_eq!(rects, vec![rect(0, 0, 2, 1), rect(1, 1, 2, 2)]);
}

#[test]
fn test_decompose_rectangles_overlapping() {
    let mut edges = edges_of(&[(0, 0), (10, 0), (10, 10), (0, 10)]);
    edges.extend(edges_of(&[(0, 0), (5, 0), (5, 5), (0, 5)]));
    let decomposed = decompose_rectangles(&edges);
    assert_eq!(decomposed, vec![rect(0, 0, 10, 10)]);
}

#[test]
fn decompose_rectangles_two_bodies_and_a_notch() {
    // A square with a notch on its right side, and a separate bar.
    let notched = vec![(0, 0), (4, 0), (4, 1), (3, 1), (3, 2), (4, 2), (4, 4), (0, 4)];
    let mut edges = edges_of(&notched);
    edges.extend(edges_of(&[(6, 1), (7, 1), (7, 3), (6, 3)]));
    let rects = decompose_rectangles(&edges);
    let area: i32 = rects.iter().map(|r| (r.x1 - r.x0) * (r.y1 - r.y0)).sum();
    assert_eq!(area, 16 - 1 + 2);
    for (i, a) in rects.iter().enumerate() {
        assert!(a.x0 < a.x1 && a.y0 < a.y1);
        for b in rects.iter().skip(i + 1) {
            let overlap = a.x0 < b.x1 && b.x0 < a.x1 && a.y0 < b.y1 && b.y0 < a.y1;
            assert!(!overlap, "{:?} {:?}", a, b);
        }
    }
    assert_eq!(rects, vec![rect(0, 1, 3, 2), rect(0, 0, 4, 1), rect(0, 2, 4, 4), rect(6, 1, 7, 3)]);
}

#[test]
fn decompose_rectangles_splits_where_right_edges_end() {
    // Two squares on top of each other, given as separate polygons: their right
    // sides are two edges, so the squares stay apart.
    let mut edges = edges_of(&[(0, 0), (2, 0), (2, 1), (0, 1)]);
    edges.extend(edges_of(&[(0, 1), (2, 1), (2, 2), (0, 2)]));
    assert_eq!(decompose_rectangles(&edges), vec![rect(0, 0, 2, 1), rect(0, 1, 2, 2)]);
    // A square whose right side is made of two edges.
    let split_right = vec![(0, 0), (2, 0), (2, 1), (2, 2), (0, 2)];
    assert_eq!(decompose_rectangles(&edges_of(&split_right)), vec![rect(0, 0, 2, 1), rect(0, 1, 2, 2)]);
    // A square whose left side is made of two edges is one rectangle.
    let split_left = vec![(0, 0), (2, 0), (2, 2), (0, 2), (0, 1)];
    assert_eq!(decompose_rectangles(&edges_of(&split_left)), vec![rect(0, 0, 2, 2)]);
    // A rectangle next to a taller one: rows of different extent stay apart.
    let steps = vec![(0, 0), (3, 0), (3, 2), (1, 2), (1, 1), (0, 1)];
    assert_eq!(decompose_rectangles(&edges_of(&steps)), vec![rect(0, 0, 3, 1), rect(1, 1, 3, 2)]);
}
