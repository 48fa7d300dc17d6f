use circlez::generate_circle_points;

fn has(points: &[[isize; 2]], x: isize, y: isize) -> bool {
    points.iter().any(|p| p[0] == x && p[1] == y)
}

#[test]
fn radius_one_gives_the_four_neighbours_twice() {
    let points = generate_circle_points(1, 1, 1);
    let expected: Vec<[isize; 2]> =
        vec![[1, 2], [1, 2], [1, 0], [1, 0], [2, 1], [0, 1], [2, 1], [0, 1]];
    assert_eq!(points, expected);
}

#[test]
fn radius_two_takes_two_steps() {
    let points = generate_circle_points(0, 0, 2);
    let expected: Vec<[isize; 2]> = vec![
        [0, 2],
        [0, 2],
        [0, -2],
        [0, -2],
        [2, 0],
        [-2, 0],
        [2, 0],
        [-2, 0],
        [1, 2],
        [-1, 2],
        [1, -2],
        [-1, -2],
        [2, 1],
        [-2, 1],
        [2, -1],
        [-2, -1],
    ];
    assert_eq!(points, expected);
}

#[test]
fn radius_three_repeats_the_diagonal_points() {
    let points = generate_circle_points(10, 10, 3);
    assert_eq!(points.len(), 24);
    let last: Vec<[isize; 2]> = points[16..].to_vec();
    let expected: Vec<[isize; 2]> =
        vec![[12, 12], [8, 12], [12, 8], [8, 8], [12, 12], [8, 12], [12, 8], [8, 8]];
    assert_eq!(last, expected);
}

#[test]
fn points_outside_the_first_quadrant_are_kept() {
    let points = generate_circle_points(0, 0, 1);
    assert!(has(&points, 0, -1));
    assert!(has(&points, -1, 0));
    let far = generate_circle_points(-100, 50, 4);
    assert!(far.iter().all(|p| p[0] < 0));
}

#[test]
fn every_point_has_its_eight_mirror_images() {
    for r in 1..40isize {
        let (xc, yc) = (7 - r, 3 * r);
        let points = generate_circle_points(xc, yc, r);
        for p in &points {
            let dx = p[0] - xc;
            let dy = p[1] - yc;
            assert!(has(&points, xc + dx, yc + dy));
            assert!(has(&points, xc - dx, yc + dy));
            assert!(has(&points, xc + dx, yc - dy));
            assert!(has(&points, xc - dx, yc - dy));
            assert!(has(&points, xc + dy, yc + dx));
            assert!(has(&points, xc - dy, yc + dx));
            assert!(has(&points, xc + dy, yc - dx));
            assert!(has(&points, xc - dy, yc - dx));
        }
    }
}

#[test]
fn every_point_is_near_the_circle() {
    for r in 1..200isize {
        let points = generate_circle_points(-5, 9, r);
        for p in &points {
            let dx = p[0] + 5;
            let dy = p[1] - 9;
            assert!(dx.abs() <= r && dy.abs() <= r);
            assert!((dx * dx + dy * dy - r * r).abs() < r);
            assert!((r - 1) * (r - 1) < dx * dx + dy * dy);
            assert!(dx * dx + dy * dy < (r + 1) * (r + 1));
        }
    }
}

#[test]
fn the_number_of_points_grows_with_the_radius_only() {
    for r in 1..100isize {
        let points = generate_circle_points(0, 0, r);
        assert!(points.len() >= 8);
        assert!(points.len() <= 8 * (r as usize + 1));
        assert_eq!(points.len() % 8, 0);
        let moved = generate_circle_points(1000, -1000, r);
        assert_eq!(moved.len(), points.len());
        for (p, q) in points.iter().zip(moved.iter()) {
            assert_eq!([p[0] + 1000, p[1] - 1000], *q);
        }
    }
}

#[test]
fn circles_at_the_edge_of_the_number_range_are_drawn() {
    let high = generate_circle_points(isize::MAX - 3, isize::MAX - 3, 3);
    assert_eq!(high.len(), 24);
    assert_eq!(high[0], [isize::MAX - 3, isize::MAX]);
    assert_eq!(high[4], [isize::MAX, isize::MAX - 3]);
    let low = generate_circle_points(isize::MIN + 2, 0, 2);
    assert_eq!(low.len(), 16);
    assert_eq!(low[5], [isize::MIN, 0]);
}

#[test]
fn the_walk_starts_on_the_axis() {
    let points = generate_circle_points(3, 4, 25);
    assert_eq!(points[0], [3, 29]);
    assert_eq!(points[2], [3, -21]);
    assert_eq!(points[4], [28, 4]);
    assert_eq!(points[5], [-22, 4]);
}
