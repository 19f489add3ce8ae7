use rand::rngs::StdRng;
use rand::SeedableRng;
use wcloud::canvas::build_table;
use wcloud::layout::{fits_canvas, padded_rect, place_step, PlacementAction, PlacementEvent, WordAttempt};
use wcloud::sat::Rect;

#[test]
fn found_slot_is_placed() {
    let a = WordAttempt::new(false);
    assert_eq!(a.next(PlacementEvent::Found, true), (a, PlacementAction::Place));
}

#[test]
fn too_large_at_smallest_size_stops() {
    let a = WordAttempt::new(false);
    assert_eq!(a.next(PlacementEvent::TooLarge, false).1, PlacementAction::StopLayout);
    assert_eq!(a.next(PlacementEvent::TooLarge, true).1, PlacementAction::ShrinkFont);
}

#[test]
fn no_slot_shrinks_then_rotates_once_then_stops() {
    let a = WordAttempt::new(false);
    assert_eq!(a.next(PlacementEvent::NoSlot, true), (a, PlacementAction::ShrinkFont));
    let (b, act) = a.next(PlacementEvent::NoSlot, false);
    assert_eq!(act, PlacementAction::ToggleRotation);
    assert!(b.rotated && b.tried_rotation);
    assert_eq!(b.next(PlacementEvent::NoSlot, false), (b, PlacementAction::StopLayout));
}

#[test]
fn rotation_fallback_turns_a_rotated_word_upright() {
    let (b, act) = WordAttempt::new(true).next(PlacementEvent::NoSlot, false);
    assert_eq!(act, PlacementAction::ToggleRotation);
    assert!(!b.rotated);
}

#[test]
fn padded_rect_adds_margin_and_swaps_when_rotated() {
    let r = padded_rect(30, 10, 2, false);
    assert_eq!((r.width, r.height), (32, 12));
    let r = padded_rect(30, 10, 2, true);
    assert_eq!((r.width, r.height), (12, 32));
}

#[test]
fn fits_canvas_checks_both_axes() {
    assert!(fits_canvas(&Rect { width: 10, height: 5 }, 10, 5));
    assert!(!fits_canvas(&Rect { width: 11, height: 5 }, 10, 5));
    assert!(!fits_canvas(&Rect { width: 10, height: 6 }, 10, 5));
}

#[test]
fn place_step_places_on_a_free_slot() {
    let table = build_table(&[1, 0, 0, 0], 2);
    let mut rng = StdRng::seed_from_u64(5);
    let (a, action, slot) = place_step(&table, 2, 2, None, &Rect { width: 1, height: 2 }, WordAttempt::new(false), true, &mut rng);
    assert_eq!(action, PlacementAction::Place);
    assert_eq!(a, WordAttempt::new(false));
    let p = slot.unwrap();
    assert_eq!((p.x, p.y), (1, 0));
}

#[test]
fn place_step_rotates_when_nothing_fits() {
    let table = build_table(&[1, 0, 0, 0], 2);
    let mut rng = StdRng::seed_from_u64(5);
    let (a, action, slot) = place_step(&table, 2, 2, None, &Rect { width: 2, height: 2 }, WordAttempt::new(false), false, &mut rng);
    assert_eq!(action, PlacementAction::ToggleRotation);
    assert!(a.rotated && slot.is_none());
}

#[test]
fn place_step_stops_on_a_box_larger_than_the_canvas() {
    let table = build_table(&[0, 0, 0, 0], 2);
    let mut rng = StdRng::seed_from_u64(5);
    let (_, action, slot) = place_step(&table, 2, 2, None, &Rect { width: 3, height: 1 }, WordAttempt::new(false), false, &mut rng);
    assert_eq!(action, PlacementAction::StopLayout);
    assert!(slot.is_none());
}
