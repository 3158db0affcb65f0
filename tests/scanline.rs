use mray::scanline::{fill_spans, Span};

fn spans(v: &[Span]) -> Vec<(i32, i32, i32)> {
    v.iter().map(|s| (s.y, s.left, s.right)).collect()
}

#[test]
fn square_fills_each_row_once() {
    let r = spans(&fill_spans(&vec![(0, 0), (10, 0), (10, 10), (0, 10)]));
    let expect: Vec<(i32, i32, i32)> = (0..10).map(|y| (y, 0, 10)).collect();
    assert_eq!(r, expect);
}

#[test]
fn convex_triangle_gives_one_span_per_row_within_extent() {
    let r = spans(&fill_spans(&vec![(0, 0), (10, 0), (10, 10)]));
    let expect: Vec<(i32, i32, i32)> = (0..10).map(|y| (y, y, 10)).collect();
    assert_eq!(r, expect);
    assert!(r.iter().all(|s| 0 <= s.0 && s.0 < 10));
}

#[test]
fn crossings_are_truncated_toward_zero() {
    let r = spans(&fill_spans(&vec![(0, 0), (3, 10), (-3, 10)]));
    assert_eq!(
        r,
        vec![
            (0, 0, 0),
            (1, 0, 0),
            (2, 0, 0),
            (3, 0, 0),
            (4, -1, 1),
            (5, -1, 1),
            (6, -1, 1),
            (7, -2, 2),
            (8, -2, 2),
            (9, -2, 2),
        ]
    );
}

#[test]
fn concave_polygon_has_two_spans_on_notched_rows() {
    // A "U": the notch runs from y = 4 to y = 10 between x = 3 and x = 7.
    let v = vec![(0, 0), (10, 0), (10, 10), (7, 10), (7, 4), (3, 4), (3, 10), (0, 10)];
    let r = spans(&fill_spans(&v));
    for y in 0..4 {
        let row: Vec<_> = r.iter().filter(|s| s.0 == y).cloned().collect();
        assert_eq!(row, vec![(y, 0, 10)]);
    }
    for y in 4..10 {
        let row: Vec<_> = r.iter().filter(|s| s.0 == y).cloned().collect();
        assert_eq!(row, vec![(y, 0, 3), (y, 7, 10)]);
    }
    assert!(r.iter().all(|s| s.0 < 10));
}

#[test]
fn fewer_than_three_vertices_fill_nothing() {
    assert!(fill_spans(&vec![(0, 0), (5, 5)]).is_empty());
    assert!(fill_spans(&vec![]).is_empty());
}

#[test]
fn flat_polygon_fills_nothing() {
    assert!(fill_spans(&vec![(0, 3), (5, 3), (9, 3)]).is_empty());
}

#[test]
fn vertex_order_does_not_change_a_convex_fill() {
    let a = spans(&fill_spans(&vec![(0, 0), (10, 0), (10, 10)]));
    let b = spans(&fill_spans(&vec![(10, 10), (10, 0), (0, 0)]));
    assert_eq!(a, b);
}

#[test]
fn any_triangle_gets_one_span_on_each_row() {
    let tris = [
        vec![(3, 0), (0, 7), (9, 4)],
        vec![(-5, 2), (6, -3), (1, 9)],
        vec![(0, 0), (4, 0), (2, 5)],
    ];
    for t in tris.iter() {
        let lo = t.iter().map(|p| p.1).min().unwrap();
        let hi = t.iter().map(|p| p.1).max().unwrap();
        let rows: Vec<i32> = fill_spans(t).iter().map(|s| s.y).collect();
        assert_eq!(rows, (lo..hi).collect::<Vec<i32>>());
    }
}

#[test]
fn edges_from_one_vertex_are_ordered_by_slope() {
    let r = spans(&fill_spans(&vec![(0, 0), (10, 10), (20, 100)]));
    assert_eq!(r.len(), 100);
    for (i, s) in r.iter().enumerate() {
        assert_eq!(s.0, i as i32);
        assert!(s.1 <= s.2);
    }
    assert_eq!(r[0], (0, 0, 0));
    assert_eq!(r[5], (5, 1, 5));
    assert_eq!(r[10], (10, 2, 10));
    assert_eq!(r[99], (99, 19, 19));
}
