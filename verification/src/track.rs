use vstd::prelude::*;

use crate::geometry::Rect;

verus! {

/// The outside work the tracker asks for on the next frame.
#[derive(Clone, Copy, Debug, PartialEq, Eq, Structural)]
pub enum TrackStep {
    /// Let the correlation tracker follow the known box into the frame.
    UpdateTracker,
    /// Search the frame for the checkerboard.
    Detect,
}

/// What the outside work on a frame gave.
#[derive(Clone, Copy, Debug, PartialEq, Eq, Structural)]
pub enum TrackEvent {
    /// The correlation tracker ran: whether it still sees the object, and the
    /// box it left behind.
    Followed { found: bool, bounding_box: Rect },
    /// The checkerboard search ran: the box it found, if any.
    Detected(Option<Rect>),
}

/// What to do with the frame after an event.
#[derive(Clone, Copy, Debug, PartialEq, Eq, Structural)]
pub struct TrackOutput {
    /// The object's box in this frame, to draw and whose relative x position
    /// to report; `None` when the object is not located.
    pub located: Option<Rect>,
    /// Whether the correlation tracker must be started on `located`.
    pub init_tracker: bool,
}

/// The tracking state: whether the object is being followed, and its last
/// known box.
#[derive(Clone, Copy, Debug, PartialEq, Eq, Structural)]
pub struct RolandTrack {
    pub has_object: bool,
    pub bounding_box: Rect,
}

/// The step the tracker asks for in state `s`.
pub open spec fn step_of(s: RolandTrack) -> TrackStep {
    if s.has_object {
        TrackStep::UpdateTracker
    } else {
        TrackStep::Detect
    }
}

/// The state after event `e` in state `s`.
pub open spec fn next_state(s: RolandTrack, e: TrackEvent) -> RolandTrack {
    match e {
        TrackEvent::Followed { found, bounding_box } => RolandTrack {
            has_object: found,
            bounding_box,
        },
        TrackEvent::Detected(Some(b)) => RolandTrack { has_object: true, bounding_box: b },
        TrackEvent::Detected(None) => s,
    }
}

/// What is done with the frame after event `e` in state `s`.
pub open spec fn output_of(s: RolandTrack, e: TrackEvent) -> TrackOutput {
    match e {
        TrackEvent::Followed { found, bounding_box } => TrackOutput {
            located: if found {
                Some(bounding_box)
            } else {
                None
            },
            init_tracker: false,
        },
        TrackEvent::Detected(Some(b)) => TrackOutput { located: Some(b), init_tracker: true },
        TrackEvent::Detected(None) => TrackOutput { located: None, init_tracker: false },
    }
}

impl RolandTrack {
    /// A new tracker: it starts out following an empty box at the origin.
    pub fn create() -> (t: RolandTrack)
        ensures
            t == (RolandTrack {
                has_object: true,
                bounding_box: Rect { x: 0, y: 0, width: 0, height: 0 },
            }),
    {
        RolandTrack { has_object: true, bounding_box: Rect::empty() }
    }

    /// The outside work the next frame needs: follow the object while it is
    /// held, search for it once it is lost.
    pub fn next_step(&self) -> (s: TrackStep)
        ensures
            s == step_of(*self),
    {
        if self.has_object {
            TrackStep::UpdateTracker
        } else {
            TrackStep::Detect
        }
    }

    /// Takes in what the outside work that `next_step` asked for gave: the
    /// tracker's verdict while the object is held, a search once it is lost.
    /// The tracker's verdict
    /// decides whether the object is still held (its box is kept either
    /// way); a found checkerboard is taken as the new box and the tracker is
    /// started on it; a failed search changes nothing.
    pub fn update(&mut self, event: TrackEvent) -> (out: TrackOutput)
        requires
            (event is Detected) == !old(self).has_object,
        ensures
            *final(self) == next_state(*old(self), event),
            out == output_of(*old(self), event),
    {
        match event {
            TrackEvent::Followed { found, bounding_box } => {
                self.bounding_box = bounding_box;
                self.has_object = found;
                TrackOutput {
                    located: if found {
                        Some(bounding_box)
                    } else {
                        None
                    },
                    init_tracker: false,
                }
            },
            TrackEvent::Detected(Some(b)) => {
                self.has_object = true;
                self.bounding_box = b;
                TrackOutput { located: Some(b), init_tracker: true }
            },
            TrackEvent::Detected(None) => TrackOutput { located: None, init_tracker: false },
        }
    }
}

/// Whenever a frame locates the object, the tracker holds it afterwards, with
/// the located box as its box.
pub proof fn lemma_located_is_held(s: RolandTrack, e: TrackEvent)
    ensures
        output_of(s, e).located matches Some(b) ==> next_state(s, e).has_object
            && next_state(s, e).bounding_box == b,
{
}

/// Once the tracker loses the object, the next frame searches for it; once a
/// search finds it, the next frame follows it with the tracker, which has been
/// started on the found box.
pub proof fn lemma_lose_then_search(s: RolandTrack, b: Rect, r: Rect)
    ensures
        step_of(next_state(s, TrackEvent::Followed { found: false, bounding_box: b }))
            == TrackStep::Detect,
        step_of(next_state(s, TrackEvent::Detected(Some(r)))) == TrackStep::UpdateTracker,
        output_of(s, TrackEvent::Detected(Some(r))) == (TrackOutput {
            located: Some(r),
            init_tracker: true,
        }),
{
}

/// A search that finds nothing leaves the state as it was, so the next frame
/// searches again.
pub proof fn lemma_failed_search_keeps_searching(s: RolandTrack)
    requires
        step_of(s) == TrackStep::Detect,
    ensures
        next_state(s, TrackEvent::Detected(None)) == s,
        step_of(next_state(s, TrackEvent::Detected(None))) == TrackStep::Detect,
        output_of(s, TrackEvent::Detected(None)).located is None,
{
}

/// The tracker is started only on a box the frame located.
pub proof fn lemma_init_only_on_located(s: RolandTrack, e: TrackEvent)
    ensures
        output_of(s, e).init_tracker ==> output_of(s, e).located is Some,
{
}

/// Given the work the tracker asked for, the object is held after a frame
/// exactly when the frame located it, and then the held box is the located
/// box; the box is kept whenever nothing was found.
pub proof fn lemma_held_iff_located(s: RolandTrack, e: TrackEvent)
    requires
        (e is Detected) == !s.has_object,
    ensures
        next_state(s, e).has_object <==> output_of(s, e).located is Some,
        output_of(s, e).located matches Some(b) ==> next_state(s, e).bounding_box == b,
        e == TrackEvent::Detected(None) ==> next_state(s, e) == s,
{
}

} // verus!
