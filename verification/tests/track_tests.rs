use roland::geometry::Rect;
use roland::track::{RolandTrack, TrackEvent, TrackOutput, TrackStep};

#[test]
fn create_follows_empty_box() {
    let t = RolandTrack::create();
    assert!(t.has_object);
    assert_eq!(t.bounding_box, Rect::new(0, 0, 0, 0));
    assert_eq!(t.next_step(), TrackStep::UpdateTracker);
}

#[test]
fn followed_object_is_located() {
    let mut t = RolandTrack::create();
    let b = Rect::new(10, 20, 30, 40);
    let out = t.update(TrackEvent::Followed { found: true, bounding_box: b });
    assert_eq!(out, TrackOutput { located: Some(b), init_tracker: false });
    assert!(t.has_object);
    assert_eq!(t.bounding_box, b);
    assert_eq!(t.next_step(), TrackStep::UpdateTracker);
}

#[test]
fn lost_object_switches_to_search() {
    let mut t = RolandTrack::create();
    let b = Rect::new(1, 2, 3, 4);
    let out = t.update(TrackEvent::Followed { found: false, bounding_box: b });
    assert_eq!(out, TrackOutput { located: None, init_tracker: false });
    assert!(!t.has_object);
    assert_eq!(t.bounding_box, b);
    assert_eq!(t.next_step(), TrackStep::Detect);
}

#[test]
fn failed_search_changes_nothing() {
    let mut t = RolandTrack::create();
    t.update(TrackEvent::Followed { found: false, bounding_box: Rect::new(1, 2, 3, 4) });
    let before = t;
    let out = t.update(TrackEvent::Detected(None));
    assert_eq!(out, TrackOutput { located: None, init_tracker: false });
    assert_eq!(t, before);
    assert_eq!(t.next_step(), TrackStep::Detect);
}

#[test]
fn found_checkerboard_starts_tracker() {
    let mut t = RolandTrack::create();
    t.update(TrackEvent::Followed { found: false, bounding_box: Rect::new(1, 2, 3, 4) });
    let b = Rect::new(100, 100, 20, 20);
    let out = t.update(TrackEvent::Detected(Some(b)));
    assert_eq!(out, TrackOutput { located: Some(b), init_tracker: true });
    assert!(t.has_object);
    assert_eq!(t.bounding_box, b);
    assert_eq!(t.next_step(), TrackStep::UpdateTracker);
}
