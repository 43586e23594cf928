use twisty_puzzle::common::{Sign, TwistDirection};
use twisty_puzzle::orientation::Orientation;
use twisty_puzzle::topology::{Face, PuzzleType, Sticker, Twist, TwistMetric};

fn cube3() -> PuzzleType {
    PuzzleType::new(3, 3).unwrap()
}

fn up() -> Twist {
    Twist { axis: 1, from: 0, to: 2, layer_lo: 2, layer_hi: 2, direction: TwistDirection::CW }
}

#[test]
fn sign_integers() {
    assert_eq!(Sign::Neg.as_int(), -1);
    assert_eq!(Sign::Zero.as_int(), 0);
    assert_eq!(Sign::Pos.as_int(), 1);
    assert_eq!(Sign::Neg.abs(), 1);
    assert_eq!(Sign::Zero.abs(), 0);
    assert_eq!(Sign::Pos.abs(), 1);
    assert!(Sign::Zero.is_zero());
    assert!(!Sign::Pos.is_zero());
    assert!(Sign::Neg.is_nonzero());
    assert!(!Sign::Zero.is_nonzero());
    assert_eq!(Sign::iter(), vec![Sign::Neg, Sign::Zero, Sign::Pos]);
    assert_eq!(Sign::default(), Sign::Zero);
}

#[test]
fn sign_arithmetic() {
    assert_eq!(Sign::Neg.neg(), Sign::Pos);
    assert_eq!(Sign::Zero.neg(), Sign::Zero);
    assert_eq!(Sign::Neg * Sign::Neg, Sign::Pos);
    assert_eq!(Sign::Neg * Sign::Pos, Sign::Neg);
    assert_eq!(Sign::Zero * Sign::Pos, Sign::Zero);
    assert_eq!(Sign::Pos * Sign::Neg, Sign::Neg);
    assert_eq!(Sign::Neg + Sign::Pos, Sign::Zero);
    assert_eq!(Sign::Neg + Sign::Zero, Sign::Neg);
    assert_eq!(Sign::Zero + Sign::Pos, Sign::Pos);
    assert_eq!(Sign::from(TwistDirection::CW), Sign::Pos);
    assert_eq!(Sign::from(TwistDirection::CCW), Sign::Neg);
}

#[test]
fn direction_reverse() {
    assert_eq!(TwistDirection::CW.rev(), TwistDirection::CCW);
    assert_eq!(TwistDirection::CCW.rev(), TwistDirection::CW);
    assert_eq!(TwistDirection::default(), TwistDirection::CW);
}

#[test]
fn orientation_group_axioms() {
    let a = Orientation::quarter_turn(3, 0, 2, false);
    let b = Orientation::quarter_turn(3, 1, 0, true);
    let c = Orientation::quarter_turn(3, 2, 1, false);
    let e = Orientation::identity(3);
    // associativity
    assert!(a.mul(&b).mul(&c).equals(&a.mul(&b.mul(&c))));
    // two-sided inverse
    assert!(a.mul(&a.rev()).equals(&e));
    assert!(a.rev().mul(&a).equals(&e));
    assert!(b.mul(&b.rev()).is_identity());
    // identity is neutral
    assert!(a.mul(&e).equals(&a));
    assert!(e.mul(&a).equals(&a));
    // the identity acts trivially
    assert_eq!(e.act(&vec![0, 2, 1], 3), vec![0, 2, 1]);
    // acting by a product is acting by each factor in turn
    let k = vec![0, 1, 2];
    assert_eq!(a.mul(&b).act(&k, 3), a.act(&b.act(&k, 3), 3));
    // a quarter turn is not the identity, four of them are
    assert!(!a.is_identity());
    assert!(a.mul(&a).mul(&a).mul(&a).is_identity());
}

#[test]
fn quarter_turn_moves_coordinates() {
    let q = Orientation::quarter_turn(3, 0, 2, false);
    // new[from] = k[to], new[to] = n - 1 - k[from]
    assert_eq!(q.act(&vec![0, 2, 1], 3), vec![1, 2, 2]);
    assert_eq!(q.rev().act(&vec![1, 2, 2], 3), vec![0, 2, 1]);
    assert_eq!(q.source_of(0, true), (2, true));
    assert_eq!(q.source_of(2, true), (0, false));
    assert_eq!(q.dim(), 3);
}

#[test]
fn puzzle_type_limits() {
    assert!(PuzzleType::new(2, 3).is_none());
    assert!(PuzzleType::new(3, 0).is_none());
    assert!(PuzzleType::new(3, 200).is_none());
    assert_eq!(PuzzleType::new(4, 3), Some(PuzzleType { dim: 4, layers: 3 }));
    let ty = cube3();
    assert_eq!(ty.piece_count(), 27);
    assert_eq!(ty.slot_count(), 162);
    assert_eq!(ty.face_count(), 6);
    assert_eq!(ty.full_scramble_count(), 90);
}

#[test]
fn piece_numbering_round_trip() {
    let ty = cube3();
    assert_eq!(ty.piece_index(&vec![2, 1, 0]), 5);
    assert_eq!(ty.piece_coords(5), vec![2, 1, 0]);
    for p in 0..27 {
        assert_eq!(ty.piece_index(&ty.piece_coords(p)), p);
    }
    let ty4 = PuzzleType::new(4, 2).unwrap();
    assert_eq!(ty4.piece_coords(13), vec![1, 0, 1, 1]);
}

#[test]
fn stickers_of_the_cube() {
    let ty = cube3();
    assert_eq!(ty.stickers().len(), 54);
    assert_eq!(ty.face_stickers(Face { axis: 1, positive: true }).len(), 9);
    // a corner has three stickers, an edge two, a centre one, the core none
    assert_eq!(ty.sticker_count(0), 3);
    assert_eq!(ty.sticker_count(1), 2);
    assert_eq!(ty.sticker_count(4), 1);
    assert_eq!(ty.sticker_count(13), 0);
    assert_eq!(
        ty.piece_stickers(4),
        vec![Sticker { piece: 4, face: Face { axis: 2, positive: false } }]
    );
    let faces = ty.faces();
    assert_eq!(faces.len(), 6);
    assert_eq!(faces[3], Face { axis: 1, positive: true });
    assert_eq!(Face { axis: 1, positive: true }.idx(), 3);
    let s = Sticker { piece: 26, face: Face { axis: 0, positive: true } };
    let slot = ty.slot_index(s);
    assert_eq!(slot, 26 * 6 + 1);
    assert_eq!(ty.sticker_of_slot(slot), Some(s));
    assert_eq!(ty.sticker_of_slot(26 * 6), None);
}

#[test]
fn twist_definition() {
    let ty = cube3();
    let u = up();
    assert!(ty.is_twist_valid(u));
    assert!(!ty.is_twist_valid(Twist { axis: 1, from: 1, to: 2, ..u }));
    assert!(!ty.is_twist_valid(Twist { layer_hi: 3, ..u }));
    assert_eq!(u.rev(), Twist { direction: TwistDirection::CCW, ..u });
    assert!(ty.rotation_of(u.rev()).equals(&ty.rotation_of(u).rev()));
    // one seed for the corners and one for the edges of the top layer
    assert_eq!(ty.initial_pieces(u), vec![6, 7]);
    let pieces = ty.twist_pieces(u).unwrap();
    assert_eq!(pieces.len(), 8);
    assert_eq!(pieces[0], 6);
    assert!(!pieces.contains(&16));
    assert_eq!(ty.twist_stickers(u).unwrap().len(), 4 * 3 + 4 * 2);
    assert!(ty.twist_pieces(Twist { from: 1, ..u }).is_none());
}

#[test]
fn twists_combine_under_ftm_only() {
    let ty = cube3();
    let u = up();
    assert!(ty.can_combine_twists(Some(u), u, TwistMetric::Ftm));
    assert!(!ty.can_combine_twists(Some(u), u, TwistMetric::Qtm));
    assert!(!ty.can_combine_twists(None, u, TwistMetric::Ftm));
    let d = Twist { layer_lo: 0, layer_hi: 0, ..u };
    assert!(!ty.can_combine_twists(Some(u), d, TwistMetric::Ftm));
}

#[test]
fn generated_twists_are_valid() {
    let ty = PuzzleType::new(4, 3).unwrap();
    let mut seed = 1u64;
    for _ in 0..200 {
        seed = twisty_puzzle::topology::next_seed(seed);
        let t = ty.twist_from_number(seed);
        assert!(ty.is_twist_valid(t));
    }
}
