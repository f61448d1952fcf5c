use roland::geometry::{Point, Rect};

#[test]
fn new_keeps_fields() {
    let r = Rect::new(1, 2, 3, 4);
    assert_eq!(r, Rect { x: 1, y: 2, width: 3, height: 4 });
}

#[test]
fn empty_is_origin() {
    assert_eq!(Rect::empty(), Rect { x: 0, y: 0, width: 0, height: 0 });
}

#[test]
fn area_is_width_times_height() {
    assert_eq!(Rect::new(5, 5, 7, 6).area(), 42);
    assert_eq!(Rect::new(0, 0, -3, 4).area(), -12);
    assert_eq!(Rect::new(0, 0, i32::MAX, i32::MAX).area(), (i32::MAX as i64) * (i32::MAX as i64));
    assert_eq!(Rect::new(0, 0, i32::MIN, i32::MIN).area(), 1i64 << 62);
}

#[test]
fn center_rounds_halves_toward_zero() {
    assert_eq!(Rect::new(10, 20, 5, 7).center(), Point { x: 12, y: 23 });
    assert_eq!(Rect::new(10, 20, -5, -7).center(), Point { x: 8, y: 17 });
    assert_eq!(Rect::new(0, 0, 0, 0).center(), Point { x: 0, y: 0 });
}

#[test]
fn center_stays_in_frame() {
    let frame_width = 640;
    let c = Rect::new(630, 0, 10, 10).center();
    assert!(0 <= c.x && c.x < frame_width);
    // a rectangle at the left edge one pixel wide has its center on the edge
    assert_eq!(Rect::new(0, 0, 1, 1).center().x, 0);
}
