use mcts::deacon::{Directions, Form, Interaction, Piece, Player};
use mcts::game_state::GameState;
use mcts::spice::{real_point, virt_d3, Real, RealToVirtError, VirtD3};
use mcts::toy::GS;

#[test]
fn form_ranges() {
    assert_eq!(Form::Captain.range(), (1, 5));
    assert_eq!(Form::Engineer.range(), (1, 2));
    assert_eq!(Form::Pilot.range(), (1, 2));
    assert_eq!(Form::Priest.range(), (1, 3));
    assert_eq!(Form::Robot.range(), (1, 2));
    assert_eq!(Form::Scientist.range(), (1, 1));
}

#[test]
fn form_interactions() {
    assert_eq!(Form::Captain.interaction(), Interaction::Capture);
    assert_eq!(Form::Engineer.interaction(), Interaction::Swap);
    assert_eq!(Form::Pilot.interaction(), Interaction::Capture);
    assert_eq!(Form::Priest.interaction(), Interaction::Swap);
    assert_eq!(Form::Robot.interaction(), Interaction::Capture);
    assert_eq!(Form::Scientist.interaction(), Interaction::Nothing);
}

#[test]
fn form_transformations() {
    assert_eq!(Form::Captain.transformations(), vec![Form::Scientist]);
    assert_eq!(Form::Engineer.transformations(), vec![Form::Pilot, Form::Priest]);
    assert_eq!(
        Form::Pilot.transformations(),
        vec![Form::Engineer, Form::Priest, Form::Captain]
    );
    assert_eq!(Form::Priest.transformations(), vec![Form::Robot, Form::Engineer]);
    assert_eq!(
        Form::Robot.transformations(),
        vec![Form::Engineer, Form::Priest, Form::Captain]
    );
    assert_eq!(Form::Scientist.transformations(), vec![Form::Engineer, Form::Priest]);
}

#[test]
fn form_direction_counts() {
    assert_eq!(Form::Priest.directions().len(), 4);
    assert_eq!(Form::Engineer.directions().len(), 4);
    assert_eq!(Form::Captain.directions().len(), 8);
    assert_eq!(Form::Scientist.directions().len(), 8);
    let cardinal = Form::Priest.directions();
    assert_eq!((cardinal[0].x, cardinal[0].y), (1, 0));
    let diagonal = Form::Engineer.directions();
    assert_eq!((diagonal[0].x, diagonal[0].y), (1, 1));
}

#[test]
fn pieces_compare_by_fields() {
    let a = Piece { form: Form::Captain, owner: Player::Blue };
    let b = Piece { form: Form::Captain, owner: Player::Blue };
    let c = Piece { form: Form::Captain, owner: Player::Red };
    assert_eq!(a, b);
    assert_ne!(a, c);
    assert_eq!(Directions::All, Directions::All);
}

#[test]
fn conversion_value_spotcheck() {
    assert_eq!(Real::from(virt_d3(0, 0, 0)), real_point(0, 0, 0));
    assert_eq!(Real::from(virt_d3(1, 2, 3)), real_point(5, 4, 3));
    assert_eq!(Real::from(virt_d3(-1, 0, 5)), real_point(5, 4, -1));
    assert_eq!(VirtD3::try_from(real_point(5, 4, 3)), Ok(virt_d3(1, 2, 3)));
    assert_eq!(VirtD3::try_from(real_point(0, 0, 0)), Ok(virt_d3(0, 0, 0)));
}

#[test]
fn valid_real_conversions_succeed() {
    for r in [
        real_point(0, 0, 0),
        real_point(1, 0, 1),
        real_point(1, 0, -1),
        real_point(0, -1, -1),
        real_point(i8::MIN as i16, i8::MIN as i16, i8::MIN as i16),
        real_point(i8::MAX as i16 - 1, i8::MAX as i16 - 1, i8::MAX as i16 - 1),
    ] {
        assert!(VirtD3::try_from(r).is_ok(), "{r:?} should convert");
    }
}

#[test]
fn invalid_real_conversions_error_properly() {
    assert_eq!(
        VirtD3::try_from(real_point(1, 0, 0)),
        Err(RealToVirtError::NotInLattice)
    );
    assert_eq!(
        VirtD3::try_from(real_point(i16::MAX, i16::MAX, 0)),
        Err(RealToVirtError::Saturation)
    );
}

#[test]
fn virt_real_equivalence() {
    for i in [-120i8, -3, 0, 1, 5, 120] {
        for j in [-7i8, 0, 64] {
            for k in [-128i8, 0, 127] {
                let v = virt_d3(i, j, k);
                let r = Real::from(v);
                assert_eq!(VirtD3::try_from(r), Ok(v), "round trip through {r:?}");
            }
        }
    }
}

#[test]
fn toy_moves_and_values() {
    assert_eq!(GS(0).available_moves(), vec![1, 3]);
    assert_eq!(GS(9).available_moves(), vec![1, 3]);
    assert_eq!(GS(10).available_moves(), Vec::<i32>::new());
    assert_eq!(GS(-10).available_moves(), Vec::<i32>::new());
    // `true` plays on even totals
    assert!(GS(0).next_to_play());
    assert!(!GS(9).next_to_play());
    assert!(!GS(-9).next_to_play());
    assert_eq!(GS(10).terminal_value(true), Some(10));
    assert_eq!(GS(10).terminal_value(false), Some(-10));
    assert_eq!(GS(-11).terminal_value(false), Some(-11));
    assert_eq!(GS(9).terminal_value(true), None);
    assert_eq!(GS(4).apply_move(&3), GS(7));
    assert!(GS(2).states_equal(&GS(2)));
    assert!(!GS(2).states_equal(&GS(3)));
    assert_eq!(GS::initial_state(), GS(0));
}
