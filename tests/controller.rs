use twisty_puzzle::common::TwistDirection;
use twisty_puzzle::controller::{
    add_delta_toward_target, fade_step, twist_delta, ControllerError, InteractionPreferences,
    PuzzleController, ScrambleState, StickerDecorAnim, TwistSelection, PROGRESS_ONE,
};
use twisty_puzzle::state::TwistError;
use twisty_puzzle::topology::{Face, PuzzleType, Sticker, Twist, TwistMetric};

fn cube3() -> PuzzleType {
    PuzzleType::new(3, 3).unwrap()
}

fn up() -> Twist {
    Twist { axis: 1, from: 0, to: 2, layer_lo: 2, layer_hi: 2, direction: TwistDirection::CW }
}

fn right() -> Twist {
    Twist { axis: 0, from: 1, to: 2, layer_lo: 2, layer_hi: 2, direction: TwistDirection::CW }
}

fn prefs(dynamic: bool) -> InteractionPreferences {
    InteractionPreferences {
        twist_duration_us: 200_000,
        dynamic_twist_speed: dynamic,
        highlight_piece_on_hover: false,
        selection_fade_duration_us: 100_000,
        hover_fade_duration_us: 100_000,
    }
}

#[test]
fn scenario_a_single_twist() {
    let mut c = PuzzleController::new(cube3());
    assert_eq!(c.twist(up()), Ok(()));
    assert!(c.has_undo());
    assert_eq!(c.twist_count(TwistMetric::Qtm), 1);
    assert!(c.is_unsaved());
    c.catch_up();
    assert!(!c.is_solved());
    assert!(c.displayed().equals(c.latest()));
}

#[test]
fn scenario_b_inverse_twist_undoes() {
    let mut c = PuzzleController::new(cube3());
    c.twist(up()).unwrap();
    c.twist(up().rev()).unwrap();
    assert!(!c.has_undo());
    assert!(c.has_redo());
    assert!(c.latest().is_solved());
    c.catch_up();
    assert!(c.is_solved());
}

#[test]
fn scenario_c_scramble_then_undo_everything() {
    let mut c = PuzzleController::new(cube3());
    assert_eq!(c.scramble_full(), Ok(()));
    assert!(!c.is_solved());
    assert!(c.has_been_fully_scrambled());
    assert_eq!(c.twist_count(TwistMetric::Qtm), 90);
    while c.has_undo() {
        c.undo().unwrap();
    }
    assert!(c.is_solved());
    c.catch_up();
    assert!(c.is_solved());
}

#[test]
fn scenario_d_dynamic_speed() {
    let one = twist_delta(5_000, 200_000, true, 1);
    let four = twist_delta(5_000, 200_000, true, 4);
    assert_eq!(one, 25_000);
    assert_eq!(four, 112_035);
    assert!(four > one);
    assert_eq!(twist_delta(5_000, 200_000, false, 4), 25_000);
    // through the controller
    let mut c1 = PuzzleController::new(cube3());
    c1.twist(up()).unwrap();
    c1.update_geometry(5_000, &prefs(true));
    let mut c4 = PuzzleController::new(cube3());
    for t in [up(), right(), up(), right()] {
        c4.twist(t).unwrap();
    }
    c4.update_geometry(5_000, &prefs(true));
    assert!(c4.current_twist().unwrap().1 > c1.current_twist().unwrap().1);
}

#[test]
fn twist_delta_edge_cases() {
    // a zero duration, or a third of a twist or more, completes at once
    assert_eq!(twist_delta(1, 0, false, 1), PROGRESS_ONE);
    assert_eq!(twist_delta(100_000, 200_000, false, 1), PROGRESS_ONE);
    assert_eq!(twist_delta(16_667, 200_000, false, 1), 83_335);
    assert_eq!(twist_delta(16_667, 200_000, true, 4), PROGRESS_ONE);
    assert_eq!(twist_delta(0, 200_000, true, 3), 0);
    assert_eq!(twist_delta(u64::MAX, 1, false, 1), PROGRESS_ONE);
    // tiny frames round up and still grow with the queue
    assert_eq!(twist_delta(1, 1_000_000, true, 1), 1);
    assert_eq!(twist_delta(1, 1_000_000, true, 4), 4);
    assert_eq!(twist_delta(1, 3_000_000, false, 1), 1);
    // just under a third of a twist does not complete a lone twist
    assert_eq!(twist_delta(66_666, 200_000, true, 1), 333_330);
    assert_eq!(twist_delta(66_666, 200_000, true, 2), PROGRESS_ONE);
}

#[test]
fn tiny_frames_never_stall() {
    let mut c1 = PuzzleController::new(cube3());
    c1.twist(up()).unwrap();
    let mut c4 = PuzzleController::new(cube3());
    for t in [up(), right(), up(), right()] {
        c4.twist(t).unwrap();
    }
    let p = InteractionPreferences { twist_duration_us: 1_000_000, ..prefs(true) };
    c1.update_geometry(1, &p);
    c4.update_geometry(1, &p);
    assert_eq!(c1.current_twist().unwrap().1, 1);
    assert_eq!(c4.current_twist().unwrap().1, 4);
}

#[test]
fn undo_redo_round_trip() {
    let mut c = PuzzleController::new(cube3());
    let seq = [up(), right(), right(), up()];
    for t in seq {
        c.twist(t).unwrap();
    }
    c.catch_up();
    for _ in 0..4 {
        c.undo().unwrap();
    }
    assert_eq!(c.undo(), Err(ControllerError::NothingToUndo));
    c.catch_up();
    assert!(c.is_solved());
    for _ in 0..4 {
        c.redo().unwrap();
    }
    assert_eq!(c.redo(), Err(ControllerError::NothingToRedo));
    let mut fresh = PuzzleController::new(cube3());
    for t in seq {
        fresh.twist(t).unwrap();
    }
    assert!(c.latest().equals(fresh.latest()));
    assert_eq!(c.twist_count(TwistMetric::Qtm), 4);
    assert_eq!(c.twist_count(TwistMetric::Ftm), 3);
}

#[test]
fn twist_after_undo_matches_fresh_twist() {
    let mut c = PuzzleController::new(cube3());
    c.twist(right()).unwrap();
    c.twist(up()).unwrap();
    c.undo().unwrap();
    c.twist(up()).unwrap();
    assert!(!c.has_redo());
    let mut fresh = PuzzleController::new(cube3());
    fresh.twist(right()).unwrap();
    fresh.twist(up()).unwrap();
    assert!(c.latest().equals(fresh.latest()));
    assert_eq!(c.twist_count(TwistMetric::Qtm), 2);
}

#[test]
fn unsupported_twist_is_rejected() {
    let mut c = PuzzleController::new(cube3());
    let bad = Twist { axis: 7, ..up() };
    assert_eq!(c.twist(bad), Err(ControllerError::Twist(TwistError::Unsupported)));
    assert!(!c.has_undo());
    assert!(!c.is_unsaved());
    assert_eq!(
        ControllerError::Twist(TwistError::Unsupported).message(),
        "Unsupported twist for this puzzle"
    );
    assert_eq!(ControllerError::NothingToUndo.message(), "Nothing to undo");
}

#[test]
fn scramble_zero_stays_unscrambled() {
    let mut c = PuzzleController::new(cube3());
    c.twist(up()).unwrap();
    assert_eq!(c.scramble_n(0), Ok(()));
    assert!(c.is_solved());
    assert!(!c.has_undo());
    assert!(!c.check_just_solved());
    assert!(!c.has_been_solved());
    assert!(!c.has_been_fully_scrambled());
}

#[test]
fn partial_scramble() {
    let mut c = PuzzleController::new(cube3());
    assert_eq!(c.scramble_n(5), Ok(()));
    assert_eq!(c.twist_count(TwistMetric::Qtm), 5);
    assert!(c.current_twist().is_none());
    assert!(!c.has_been_fully_scrambled());
    assert!(!c.has_redo());
}

#[test]
fn solve_is_reported_once() {
    let mut c = PuzzleController::new(cube3());
    assert!(!c.check_just_solved());
    c.scramble_n(3).unwrap();
    assert!(!c.check_just_solved());
    while c.has_undo() {
        c.undo().unwrap();
        assert!(!c.check_just_solved());
    }
    c.catch_up();
    assert!(c.check_just_solved());
    assert!(c.has_been_solved());
    assert!(!c.check_just_solved());
    c.twist(up()).unwrap();
    c.twist(up().rev()).unwrap();
    c.catch_up();
    assert!(!c.check_just_solved());
    c.scramble_n(2).unwrap();
    while c.has_undo() {
        c.undo().unwrap();
    }
    c.catch_up();
    assert!(c.check_just_solved());
}

#[test]
fn animation_progress_stays_in_range() {
    let mut c = PuzzleController::new(cube3());
    c.update_geometry(10_000, &prefs(false));
    assert!(c.current_twist().is_none());
    c.twist(up()).unwrap();
    c.twist(right()).unwrap();
    let e0 = c.geometry_epoch();
    c.update_geometry(10_000, &prefs(false));
    assert_eq!(c.current_twist(), Some((up(), 50_000)));
    assert_ne!(c.geometry_epoch(), e0);
    for _ in 0..50 {
        c.update_geometry(10_000, &prefs(false));
        if let Some((_, p)) = c.current_twist() {
            assert!(p < PROGRESS_ONE);
        }
    }
    assert!(c.current_twist().is_none());
    assert!(c.displayed().equals(c.latest()));
    // a zero duration completes each twist in one frame
    let mut fast = prefs(false);
    fast.twist_duration_us = 0;
    c.twist(up()).unwrap();
    c.update_geometry(1, &fast);
    assert!(c.current_twist().is_none());
}

#[test]
fn catch_up_empties_the_queue() {
    let mut c = PuzzleController::new(cube3());
    for t in [up(), right(), up()] {
        c.twist(t).unwrap();
    }
    assert_eq!(c.current_twist(), Some((up(), 0)));
    c.catch_up();
    assert!(c.current_twist().is_none());
    assert!(c.displayed().equals(c.latest()));
}

#[test]
fn reset_clears_everything() {
    let mut c = PuzzleController::new(cube3());
    c.scramble_n(4).unwrap();
    c.twist(up()).unwrap();
    c.reset();
    assert!(c.is_solved());
    assert!(!c.has_undo());
    assert!(!c.has_redo());
    assert!(!c.is_unsaved());
    assert!(!c.has_been_solved());
    assert_eq!(c.ty(), cube3());
}

#[test]
fn decorations_move_toward_targets() {
    let mut c = PuzzleController::new(cube3());
    let top = Face { axis: 1, positive: true };
    let s_top = Sticker { piece: 16, face: top };
    let s_front = Sticker { piece: 0, face: Face { axis: 2, positive: false } };
    assert_eq!(c.sticker_animation_state(s_top), StickerDecorAnim { selected: PROGRESS_ONE, hovered: 0 });
    let p = prefs(false);
    assert!(!c.is_animating(&p));
    c.set_selection(TwistSelection { face: Some(top) });
    assert_eq!(c.selection(), TwistSelection { face: Some(top) });
    assert!(c.is_animating(&p));
    c.update_decorations(25_000, &p);
    // deselected stickers fade out by a quarter per 25 ms
    assert_eq!(c.sticker_animation_state(s_front).selected, 750_000);
    assert_eq!(c.sticker_animation_state(s_top).selected, PROGRESS_ONE);
    // hover comes at once
    c.update_hovered_stickers(&vec![s_front, s_top]);
    assert_eq!(c.hovered_sticker(), Some(s_top));
    c.update_decorations(0, &p);
    assert_eq!(c.sticker_animation_state(s_top).hovered, PROGRESS_ONE);
    // and fades out
    c.update_hovered_stickers(&vec![]);
    assert_eq!(c.hovered_sticker(), None);
    c.update_decorations(50_000, &p);
    assert_eq!(c.sticker_animation_state(s_top).hovered, 500_000);
    for _ in 0..10 {
        c.update_decorations(50_000, &p);
    }
    assert!(!c.is_animating(&p));
}

#[test]
fn moving_toward_a_target() {
    let mut v = 100u64;
    add_delta_toward_target(&mut v, 300, 50);
    assert_eq!(v, 150);
    add_delta_toward_target(&mut v, 300, 500);
    assert_eq!(v, 300);
    add_delta_toward_target(&mut v, 0, 120);
    assert_eq!(v, 180);
    add_delta_toward_target(&mut v, 0, u64::MAX);
    assert_eq!(v, 0);
    assert_eq!(fade_step(10, 0), PROGRESS_ONE);
    assert_eq!(fade_step(25_000, 100_000), 250_000);
    assert_eq!(fade_step(200_000, 100_000), PROGRESS_ONE);
}

#[test]
fn scramble_state_default() {
    assert_eq!(ScrambleState::default(), ScrambleState::Unscrambled);
    assert_eq!(TwistSelection::default(), TwistSelection { face: None });
}

#[test]
fn geometry_epoch_moves_on_changes() {
    let mut c = PuzzleController::new(cube3());
    let e0 = c.geometry_epoch();
    c.twist(up()).unwrap();
    let e1 = c.geometry_epoch();
    assert_ne!(e1, e0);
    c.undo().unwrap();
    let e2 = c.geometry_epoch();
    assert_ne!(e2, e1);
    c.redo().unwrap();
    let e3 = c.geometry_epoch();
    assert_ne!(e3, e2);
    c.catch_up();
    assert_ne!(c.geometry_epoch(), e3);
    let e4 = c.geometry_epoch();
    c.reset();
    assert_ne!(c.geometry_epoch(), e4);
}

#[test]
fn selection_follows_colours() {
    let mut c = PuzzleController::new(cube3());
    let right_face = Face { axis: 0, positive: true };
    let sel = TwistSelection { face: Some(right_face) };
    // the right sticker of the top-front-right corner
    let s = Sticker { piece: 26, face: right_face };
    assert!(sel.has_sticker(c.latest(), s));
    c.twist(up()).unwrap();
    assert!(!sel.has_sticker(c.latest(), s));
    assert!(TwistSelection { face: None }.has_sticker(c.latest(), s));
}

#[test]
fn idle_frames_keep_the_geometry_epoch() {
    let mut c = PuzzleController::new(cube3());
    let e = c.geometry_epoch();
    c.update_geometry(16_000, &prefs(true));
    assert_eq!(c.geometry_epoch(), e);
}
