use roland::detect::{detect_checkerboard, detect_faces, find_adjacent, is_close, is_square};
use roland::geometry::Rect;

fn r(x: i32, y: i32, w: i32, h: i32) -> Rect {
    Rect::new(x, y, w, h)
}

#[test]
fn square_needs_area_between_bounds() {
    assert!(!is_square(&r(0, 0, 4, 5)));
    assert!(is_square(&r(0, 0, 5, 5)));
    assert!(is_square(&r(0, 0, 31, 31)));
    assert!(!is_square(&r(0, 0, 40, 25)));
    assert!(!is_square(&r(0, 0, 32, 32)));
}

#[test]
fn square_ratio_bounds_are_strict() {
    // 21 / 20 is exactly the upper bound: rejected.
    assert!(!is_square(&r(0, 0, 21, 20)));
    // 19 / 20 is exactly the lower bound: rejected.
    assert!(!is_square(&r(0, 0, 19, 20)));
    assert!(is_square(&r(0, 0, 20, 20)));
    assert!(is_square(&r(0, 0, 30, 29)));
    assert!(!is_square(&r(0, 0, 30, 28)));
    assert!(is_square(&r(0, 0, -20, -20)));
    assert!(!is_square(&r(0, 0, 0, 30)));
}

#[test]
fn close_needs_distance_and_area() {
    let group = vec![r(0, 0, 10, 10), r(100, 50, 10, 10)];
    assert!(is_close(&group, &r(50, 50, 10, 10)));
    // 201 from the first corner
    assert!(!is_close(&group, &r(150, 51, 10, 10)));
    // area 301 against 100: the areas differ by 201
    assert!(!is_close(&group, &r(50, 50, 7, 43)));
    // area 300 against 100: a difference of 200 is allowed
    assert!(is_close(&group, &r(50, 50, 10, 30)));
    assert!(is_close(&Vec::new(), &r(9999, 9999, 1, 1)));
}

#[test]
fn find_adjacent_needs_two_boxes() {
    let mut none: Vec<Rect> = Vec::new();
    assert_eq!(find_adjacent(&mut none), None);
    let mut one = vec![r(3, 4, 5, 6)];
    assert_eq!(find_adjacent(&mut one), None);
    assert_eq!(one, vec![r(3, 4, 5, 6)]);
}

#[test]
fn find_adjacent_spans_close_corners() {
    let mut v = vec![r(40, 30, 5, 5), r(10, 60, 5, 5), r(1000, 1000, 5, 5), r(50, 20, 5, 5)];
    assert_eq!(find_adjacent(&mut v), Some(r(10, 20, 40, 40)));
    // the seed was taken out of the input
    assert_eq!(v, vec![r(10, 60, 5, 5), r(1000, 1000, 5, 5), r(50, 20, 5, 5)]);
}

#[test]
fn find_adjacent_greedy_order_matters() {
    // the third box is close to the first but not to the second, which joined first
    let mut v = vec![r(100, 100, 5, 5), r(0, 100, 5, 5), r(201, 100, 5, 5)];
    assert_eq!(find_adjacent(&mut v), Some(r(0, 100, 100, 0)));
}

#[test]
fn find_adjacent_spans_negative_corners() {
    let mut v = vec![r(-50, -40, 5, 5), r(-30, -20, 5, 5)];
    assert_eq!(find_adjacent(&mut v), Some(r(-50, -40, 20, 20)));
    let mut v = vec![r(-50, -50, 10, 10), r(-40, -50, 10, 10)];
    assert_eq!(find_adjacent(&mut v), Some(r(-50, -50, 10, 0)));
}

#[test]
fn find_adjacent_lone_seed() {
    let mut v = vec![r(10, 10, 5, 5), r(500, 500, 5, 5)];
    assert_eq!(find_adjacent(&mut v), Some(r(10, 10, 0, 0)));
}

#[test]
fn checkerboard_from_bounding_boxes() {
    let boxes = vec![
        r(0, 0, 200, 200),
        r(100, 100, 10, 10),
        r(120, 100, 10, 10),
        r(5, 5, 1, 1),
        r(100, 140, 11, 10),
        r(100, 120, 10, 10),
        r(140, 140, 20, 10),
    ];
    assert_eq!(detect_checkerboard(&boxes), Some(r(100, 100, 20, 20)));
}

#[test]
fn checkerboard_needs_two_squares() {
    let boxes = vec![r(0, 0, 200, 200), r(100, 100, 10, 10), r(5, 5, 1, 1)];
    assert_eq!(detect_checkerboard(&boxes), None);
    assert_eq!(detect_checkerboard(&Vec::new()), None);
}

#[test]
fn checkerboard_cluster_pairwise_close() {
    let boxes = vec![r(0, 0, 10, 10), r(150, 0, 10, 10), r(300, 0, 10, 10)];
    // the third is 300 from the first: it stays out
    assert_eq!(detect_checkerboard(&boxes), Some(r(0, 0, 150, 0)));
}

#[test]
fn faces_first_or_none() {
    assert_eq!(detect_faces(&Vec::new()), None);
    assert_eq!(detect_faces(&vec![r(1, 2, 3, 4), r(5, 6, 7, 8)]), Some(r(1, 2, 3, 4)));
}

#[test]
fn adjacent_box_covers_every_corner_of_the_group() {
    let mut v = vec![r(40, 30, 5, 5), r(10, 60, 5, 5), r(50, 20, 5, 5), r(900, 20, 5, 5)];
    let group = vec![r(40, 30, 5, 5), r(10, 60, 5, 5), r(50, 20, 5, 5)];
    let b = find_adjacent(&mut v).unwrap();
    for g in &group {
        assert!(b.x <= g.x && g.x <= b.x + b.width);
        assert!(b.y <= g.y && g.y <= b.y + b.height);
    }
    // every two members of the group are close
    for a in &group {
        for c in &group {
            assert!(is_close(&vec![*a], c));
        }
    }
    assert!(!is_close(&group, &r(900, 20, 5, 5)));
}

#[test]
fn closeness_is_symmetric() {
    let a = r(0, 0, 10, 10);
    let b = r(150, 49, 10, 12);
    assert_eq!(is_close(&vec![a], &b), is_close(&vec![b], &a));
    let c = r(150, 51, 10, 10);
    assert_eq!(is_close(&vec![a], &c), is_close(&vec![c], &a));
}
