use twisty_puzzle::common::TwistDirection;
use twisty_puzzle::orientation::Orientation;
use twisty_puzzle::state::{PuzzleState, TwistError};
use twisty_puzzle::topology::{Face, PuzzleType, Sticker, Twist};

fn cube3() -> PuzzleType {
    PuzzleType::new(3, 3).unwrap()
}

fn up() -> Twist {
    Twist { axis: 1, from: 0, to: 2, layer_lo: 2, layer_hi: 2, direction: TwistDirection::CW }
}

#[test]
fn new_state_is_solved() {
    let st = PuzzleState::new(cube3());
    assert!(st.is_solved());
    assert_eq!(st.ty(), cube3());
    assert!(st.get_piece(0).is_identity());
}

#[test]
fn twist_then_reverse_is_solved() {
    let mut st = PuzzleState::new(cube3());
    assert_eq!(st.twist(up()), Ok(()));
    assert!(!st.is_solved());
    assert_eq!(st.twist(up().rev()), Ok(()));
    assert!(st.is_solved());
}

#[test]
fn round_trip_in_four_dimensions() {
    let ty = PuzzleType::new(4, 3).unwrap();
    let mut st = PuzzleState::new(ty);
    let a = Twist { axis: 3, from: 0, to: 1, layer_lo: 0, layer_hi: 1, direction: TwistDirection::CCW };
    let b = Twist { axis: 0, from: 2, to: 3, layer_lo: 2, layer_hi: 2, direction: TwistDirection::CW };
    st.twist(a).unwrap();
    let after_a = st.duplicate();
    st.twist(b).unwrap();
    st.twist(b.rev()).unwrap();
    assert!(st.equals(&after_a));
    st.twist(a.rev()).unwrap();
    assert!(st.is_solved());
}

#[test]
fn four_quarter_turns_are_solved() {
    let mut st = PuzzleState::new(cube3());
    for i in 0..4 {
        assert!(st.is_solved() == (i == 0));
        st.twist(up()).unwrap();
    }
    assert!(st.is_solved());
}

#[test]
fn twist_moves_stickers() {
    let mut st = PuzzleState::new(cube3());
    // the top-front-right corner shows the right colour on its right side
    let s = Sticker { piece: st.ty().piece_index(&vec![2, 2, 2]), face: Face { axis: 0, positive: true } };
    assert_eq!(st.get_sticker(s), Face { axis: 0, positive: true });
    st.twist(up()).unwrap();
    assert_ne!(st.get_sticker(s), Face { axis: 0, positive: true });
    // the centre of the top face keeps its colour
    let top = Sticker { piece: st.ty().piece_index(&vec![1, 2, 1]), face: Face { axis: 1, positive: true } };
    assert_eq!(st.get_sticker(top), Face { axis: 1, positive: true });
}

#[test]
fn unsupported_twist_changes_nothing() {
    let mut st = PuzzleState::new(cube3());
    let bad = Twist { axis: 5, ..up() };
    assert_eq!(st.twist(bad), Err(TwistError::Unsupported));
    let bad_layer = Twist { layer_lo: 2, layer_hi: 4, ..up() };
    assert_eq!(st.twist(bad_layer), Err(TwistError::Unsupported));
    assert!(st.is_solved());
}

#[test]
fn swap_and_cycle() {
    let mut st = PuzzleState::new(cube3());
    let q = Orientation::quarter_turn(3, 0, 2, false);
    st.swap(0, 2, &q);
    assert!(st.get_piece(0).equals(&q));
    assert!(st.get_piece(2).equals(&q.rev()));
    let mut st2 = PuzzleState::new(cube3());
    assert_eq!(st2.cycle(6, &q), Ok(()));
    assert!(!st2.is_solved());
    assert_eq!(st2.cycle(99, &q), Err(TwistError::Unsupported));
    // cycling the centre of the turning plane does nothing
    let mut st3 = PuzzleState::new(cube3());
    assert_eq!(st3.cycle(st3.ty().piece_index(&vec![1, 2, 1]), &q), Ok(()));
    assert!(st3.is_solved());
}

#[test]
fn duplicate_is_equal() {
    let mut st = PuzzleState::new(cube3());
    st.twist(up()).unwrap();
    let copy = st.duplicate();
    assert!(copy.equals(&st));
    let q = Orientation::quarter_turn(3, 1, 2, true);
    assert!(q.duplicate().equals(&q));
    assert!(!PuzzleState::new(cube3()).equals(&st));
}
