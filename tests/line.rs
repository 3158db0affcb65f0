use mray::line::{line_coverage, polyline_coverage, Coverage};

fn cov(v: &[Coverage]) -> Vec<(i64, i64, u64, u64)> {
    v.iter().map(|c| (c.x, c.y, c.weight, c.scale)).collect()
}

#[test]
fn vertical_line_is_solid_low_to_high() {
    let r = cov(&line_coverage(2, 3, 2, 0));
    assert_eq!(r, vec![(2, 0, 1, 1), (2, 1, 1, 1), (2, 2, 1, 1), (2, 3, 1, 1)]);
}

#[test]
fn zero_length_line_draws_nothing() {
    assert!(line_coverage(5, 5, 5, 5).is_empty());
    assert!(polyline_coverage(&vec![(1, 1), (1, 1), (3, 1)]).len() == 3);
}

#[test]
fn horizontal_line_is_solid_left_to_right() {
    let r = cov(&line_coverage(3, 1, 1, 1));
    assert_eq!(r, vec![(1, 1, 1, 1), (2, 1, 1, 1), (3, 1, 1, 1)]);
}

#[test]
fn diagonal_lines_are_solid() {
    assert_eq!(
        cov(&line_coverage(2, 2, 0, 0)),
        vec![(0, 0, 1, 1), (1, 1, 1, 1), (2, 2, 1, 1)]
    );
    assert_eq!(
        cov(&line_coverage(2, 0, 0, 2)),
        vec![(0, 2, 1, 1), (1, 1, 1, 1), (2, 0, 1, 1)]
    );
}

#[test]
fn shallow_line_splits_coverage() {
    let r = cov(&line_coverage(0, 0, 4, 1));
    assert_eq!(
        r,
        vec![
            (0, 0, 4, 4),
            (0, 1, 0, 4),
            (1, 0, 3, 4),
            (1, 1, 1, 4),
            (2, 0, 2, 4),
            (2, 1, 2, 4),
            (3, 0, 1, 4),
            (3, 1, 3, 4),
        ]
    );
}

#[test]
fn shallow_line_is_oriented_by_direction() {
    assert_eq!(cov(&line_coverage(4, 1, 0, 0)), cov(&line_coverage(0, 0, 4, 1)));
}

#[test]
fn steep_line_steps_along_y() {
    let r = cov(&line_coverage(0, 0, 1, 3));
    assert_eq!(
        r,
        vec![
            (0, 0, 3, 3),
            (1, 0, 0, 3),
            (0, 1, 2, 3),
            (1, 1, 1, 3),
            (0, 2, 1, 3),
            (1, 2, 2, 3),
        ]
    );
}

#[test]
fn shallow_falling_line_steps_up() {
    let r = cov(&line_coverage(0, 0, 3, -1));
    assert_eq!(
        r,
        vec![
            (0, 0, 3, 3),
            (0, -1, 0, 3),
            (1, 0, 2, 3),
            (1, -1, 1, 3),
            (2, 0, 1, 3),
            (2, -1, 2, 3),
        ]
    );
}

#[test]
fn steep_falling_line_walks_down_from_the_far_end() {
    let r = cov(&line_coverage(0, 0, 1, -3));
    assert_eq!(
        r,
        vec![
            (0, -1, 3, 3),
            (1, -1, 0, 3),
            (0, -2, 2, 3),
            (1, -2, 1, 3),
            (0, -3, 1, 3),
            (1, -3, 2, 3),
        ]
    );
}

#[test]
fn extreme_endpoints_do_not_overflow() {
    let r = line_coverage(i32::MIN, 0, i32::MIN, 2);
    assert_eq!(r.len(), 3);
    assert_eq!(r[0].x, i32::MIN as i64);
}

#[test]
fn polyline_concatenates_segments() {
    let pts = vec![(0, 0), (2, 0), (2, 2)];
    let mut expect = cov(&line_coverage(0, 0, 2, 0));
    expect.extend(cov(&line_coverage(2, 0, 2, 2)));
    assert_eq!(cov(&polyline_coverage(&pts)), expect);
    assert_eq!(expect.len(), 6);
}

#[test]
fn polyline_with_one_point_draws_nothing() {
    assert!(polyline_coverage(&vec![(1, 1)]).is_empty());
    assert!(polyline_coverage(&vec![]).is_empty());
}

#[test]
fn every_octant_draws_the_same_both_ways() {
    let ends = [(7, 2), (2, 7), (7, -2), (-2, 7), (-7, 2), (2, -7), (0, 5), (5, 0), (4, 4), (4, -4), (0, 0)];
    for (x, y) in ends.iter() {
        assert_eq!(
            cov(&line_coverage(1, 1, 1 + x, 1 + y)),
            cov(&line_coverage(1 + x, 1 + y, 1, 1))
        );
    }
}

#[test]
fn split_steps_conserve_coverage() {
    let r = line_coverage(0, 0, 7, 3);
    assert_eq!(r.len(), 14);
    for pair in r.chunks(2) {
        assert_eq!(pair[0].weight + pair[1].weight, pair[0].scale);
        assert_eq!(pair[0].x, pair[1].x);
        assert_eq!(pair[0].y + 1, pair[1].y);
    }
}
