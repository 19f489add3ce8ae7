//! Decisions of the per-word placement loop. The caller measures glyphs,
//! keeps the font size and runs the slot search; these functions say what
//! to do with each outcome.
use vstd::prelude::*;
use rand::rngs::StdRng;
use crate::sat::{candidates, considered, drawn_from, reservoir_scan, skip_view, slot_open, Point, Rect};

verus! {

/// What the placement of one word has tried so far.
#[derive(Debug, Clone, Copy, PartialEq, Eq, Structural)]
pub struct WordAttempt {
    /// The word is laid out turned by a quarter turn.
    pub rotated: bool,
    /// The fallback to the other orientation has been used.
    pub tried_rotation: bool,
}

/// What the last try at placing a word found.
#[derive(Debug, Clone, Copy, PartialEq, Eq, Structural)]
pub enum PlacementEvent {
    /// The word's padded box exceeds the canvas.
    TooLarge,
    /// No empty slot fits the word's padded box.
    NoSlot,
    /// A slot was found.
    Found,
}

/// What the loop does next.
#[derive(Debug, Clone, Copy, PartialEq, Eq, Structural)]
pub enum PlacementAction {
    /// Stamp the word at the slot found.
    Place,
    /// Try again one font step smaller.
    ShrinkFont,
    /// Try again in the other orientation, from the word's first size.
    ToggleRotation,
    /// Place no further words.
    StopLayout,
}

/// The state after `event`, given whether the font can shrink one more step.
pub open spec fn next_spec(a: WordAttempt, event: PlacementEvent, can_shrink: bool) -> (WordAttempt, PlacementAction) {
    match event {
        PlacementEvent::Found => (a, PlacementAction::Place),
        PlacementEvent::TooLarge => {
            if can_shrink {
                (a, PlacementAction::ShrinkFont)
            } else {
                (a, PlacementAction::StopLayout)
            }
        },
        PlacementEvent::NoSlot => {
            if can_shrink {
                (a, PlacementAction::ShrinkFont)
            } else if !a.tried_rotation {
                (WordAttempt { rotated: !a.rotated, tried_rotation: true }, PlacementAction::ToggleRotation)
            } else {
                (a, PlacementAction::StopLayout)
            }
        },
    }
}

impl WordAttempt {
    /// A fresh attempt in the given orientation.
    pub fn new(rotated: bool) -> (r: Self)
        ensures
            r.rotated == rotated,
            !r.tried_rotation,
    {
        WordAttempt { rotated, tried_rotation: false }
    }

    /// The next state and action: a found slot is taken; otherwise the font
    /// shrinks while it can; a word with no slot then gets the other
    /// orientation once; after that, or when the box exceeds the canvas at
    /// the smallest size, the layout stops.
    pub fn next(self, event: PlacementEvent, can_shrink: bool) -> (r: (WordAttempt, PlacementAction))
        ensures
            r == next_spec(self, event, can_shrink),
    {
        match event {
            PlacementEvent::Found => (self, PlacementAction::Place),
            PlacementEvent::TooLarge => {
                if can_shrink {
                    (self, PlacementAction::ShrinkFont)
                } else {
                    (self, PlacementAction::StopLayout)
                }
            },
            PlacementEvent::NoSlot => {
                if can_shrink {
                    (self, PlacementAction::ShrinkFont)
                } else if !self.tried_rotation {
                    (WordAttempt { rotated: !self.rotated, tried_rotation: true }, PlacementAction::ToggleRotation)
                } else {
                    (self, PlacementAction::StopLayout)
                }
            },
        }
    }
}

/// A word whose box still exceeds the canvas at the smallest font size
/// ends the layout, whatever was tried before.
pub proof fn lemma_too_large_stops(a: WordAttempt)
    ensures
        next_spec(a, PlacementEvent::TooLarge, false).1 == PlacementAction::StopLayout,
{
}

/// The fallback order ends: rotation is tried at most once, so from any
/// state, with the font at its smallest, at most two failed tries pass
/// before the layout stops.
pub proof fn lemma_fallback_ends(a: WordAttempt, e1: PlacementEvent, e2: PlacementEvent)
    requires
        e1 != PlacementEvent::Found,
        e2 != PlacementEvent::Found,
    ensures
        next_spec(a, e1, false).1 == PlacementAction::StopLayout
            || next_spec(next_spec(a, e1, false).0, e2, false).1 == PlacementAction::StopLayout,
{
}

/// The box a word needs: its glyph box plus the margin on each axis, with
/// the axes swapped when it is rotated.
pub fn padded_rect(width: u32, height: u32, margin: u32, rotated: bool) -> (r: Rect)
    requires
        width + margin <= u32::MAX,
        height + margin <= u32::MAX,
    ensures
        !rotated ==> r.width == width + margin && r.height == height + margin,
        rotated ==> r.width == height + margin && r.height == width + margin,
{
    if rotated {
        Rect { width: height + margin, height: width + margin }
    } else {
        Rect { width: width + margin, height: height + margin }
    }
}

/// The box fits inside a canvas of the given size.
pub fn fits_canvas(rect: &Rect, canvas_width: u32, canvas_height: u32) -> (r: bool)
    ensures
        r == (rect.width <= canvas_width && rect.height <= canvas_height),
{
    rect.width <= canvas_width && rect.height <= canvas_height
}

/// One try at placing a word whose padded box is `rect`: a box that exceeds
/// the canvas is too large; otherwise a slot is drawn uniformly among the
/// open ones (within the skip list's ranges when one is given). The result
/// is the next state and action, and the slot when the action is to place.
pub fn place_step(
    table: &[u32],
    canvas_width: u32,
    canvas_height: u32,
    skip_list: Option<&[(usize, usize)]>,
    rect: &Rect,
    attempt: WordAttempt,
    can_shrink: bool,
    rng: &mut StdRng,
) -> (r: (WordAttempt, PlacementAction, Option<Point>))
    requires
        canvas_width as int * canvas_height as int <= table@.len(),
        (canvas_width as int + 1) * (canvas_height as int + 1) <= u64::MAX,
    ensures
        ({
            let fits = rect.width <= canvas_width && rect.height <= canvas_height;
            let event = if !fits {
                PlacementEvent::TooLarge
            } else if r.2 is Some {
                PlacementEvent::Found
            } else {
                PlacementEvent::NoSlot
            };
            &&& (r.0, r.1) == next_spec(attempt, event, can_shrink)
            &&& (r.2 is Some <==> r.1 == PlacementAction::Place)
            &&& r.2 matches Some(p) ==> slot_open(table@, canvas_width as int, canvas_height as int, rect.width as int, rect.height as int, p.x as int, p.y as int)
                && considered(skip_view(skip_list), p.y as int, p.x as int)
            &&& r.2 is None ==> *final(rng) == *old(rng)
            &&& drawn_from(r.2, candidates(table@, canvas_width as int, canvas_height as int, rect.width as int, rect.height as int, skip_view(skip_list), canvas_height + 1))
            &&& fits && r.2 is None ==> forall|x: int, y: int|
                !(#[trigger] slot_open(table@, canvas_width as int, canvas_height as int, rect.width as int, rect.height as int, x, y)
                    && considered(skip_view(skip_list), y, x))
        }),
{
    if !fits_canvas(rect, canvas_width, canvas_height) {
        let (next, action) = attempt.next(PlacementEvent::TooLarge, can_shrink);
        proof {
            let c = candidates(table@, canvas_width as int, canvas_height as int, rect.width as int, rect.height as int, skip_view(skip_list), canvas_height + 1);
            crate::sat::lemma_no_candidates_when_too_large(table@, canvas_width as int, canvas_height as int, rect.width as int, rect.height as int, skip_view(skip_list));
            let d = Seq::<u64>::empty();
            assert(crate::sat::holds(None, crate::sat::reservoir_pick(c, d, d.len() as int)));
        }
        return (next, action, None);
    }
    match reservoir_scan(table, canvas_width, canvas_height, rect, skip_list, rng) {
        Some(p) => {
            let (next, action) = attempt.next(PlacementEvent::Found, can_shrink);
            (next, action, Some(p))
        },
        None => {
            let (next, action) = attempt.next(PlacementEvent::NoSlot, can_shrink);
            (next, action, None)
        },
    }
}

} // verus!
