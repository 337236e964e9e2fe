use mcts::board::{
    apply_action, apply_move, coord_unwrapped, Action, Board, Coordinate, State,
};
use mcts::deacon::{Form, Piece, Player, RelCoord};

fn put(b: &mut Board, x: u8, y: u8, form: Form, owner: Player) {
    b.set(coord_unwrapped(x, y), Some(Piece { form, owner }));
}

fn at(b: &Board, x: u8, y: u8) -> Option<Piece> {
    b.get(coord_unwrapped(x, y))
}

#[test]
fn basic_scientist_movement() {
    let mut b = Board::empty();
    put(&mut b, 0, 0, Form::Scientist, Player::Blue);
    let action = Action {
        origin: coord_unwrapped(0, 0),
        destination: coord_unwrapped(1, 1),
        transformation: Form::Engineer,
    };
    apply_action(&mut b, &action);
    assert_eq!(at(&b, 0, 0), None);
    assert_eq!(at(&b, 1, 1), Some(Piece { form: Form::Engineer, owner: Player::Blue }));
}

#[test]
fn capture_removes_the_target() {
    let mut b = Board::empty();
    put(&mut b, 2, 2, Form::Engineer, Player::Blue);
    put(&mut b, 0, 4, Form::Captain, Player::Red);
    let action = Action {
        origin: coord_unwrapped(0, 4),
        destination: coord_unwrapped(2, 2),
        transformation: Form::Scientist,
    };
    apply_action(&mut b, &action);
    assert_eq!(at(&b, 0, 4), None);
    assert_eq!(at(&b, 2, 2), Some(Piece { form: Form::Scientist, owner: Player::Red }));
}

#[test]
fn swap_keeps_the_target() {
    let mut b = Board::empty();
    put(&mut b, 2, 2, Form::Captain, Player::Red);
    put(&mut b, 2, 4, Form::Priest, Player::Blue);
    let action = Action {
        origin: coord_unwrapped(2, 4),
        destination: coord_unwrapped(2, 2),
        transformation: Form::Engineer,
    };
    apply_action(&mut b, &action);
    assert_eq!(at(&b, 2, 2), Some(Piece { form: Form::Engineer, owner: Player::Blue }));
    assert_eq!(at(&b, 2, 4), Some(Piece { form: Form::Captain, owner: Player::Red }));
}

#[test]
fn basic_double_movement() {
    let mut b = Board::empty();
    put(&mut b, 1, 0, Form::Scientist, Player::Blue);
    put(&mut b, 0, 1, Form::Scientist, Player::Blue);
    let mv = vec![
        Action {
            origin: coord_unwrapped(0, 1),
            destination: coord_unwrapped(1, 1),
            transformation: Form::Engineer,
        },
        Action {
            origin: coord_unwrapped(1, 0),
            destination: coord_unwrapped(0, 0),
            transformation: Form::Priest,
        },
    ];
    apply_move(&mut b, &mv);
    assert_eq!(at(&b, 0, 0), Some(Piece { form: Form::Priest, owner: Player::Blue }));
    assert_eq!(at(&b, 1, 1), Some(Piece { form: Form::Engineer, owner: Player::Blue }));
    assert_eq!(at(&b, 1, 0), None);
    assert_eq!(at(&b, 0, 1), None);
}

#[test]
fn starting_position_and_terminal_value() {
    let s = State::initial_state();
    assert_eq!(s.next_to_play(), Player::Blue);
    assert_eq!(
        s.board.get(coord_unwrapped(1, 0)),
        Some(Piece { form: Form::Scientist, owner: Player::Blue })
    );
    assert_eq!(
        s.board.get(coord_unwrapped(3, 4)),
        Some(Piece { form: Form::Scientist, owner: Player::Red })
    );
    assert_eq!(s.board.get(coord_unwrapped(2, 2)), None);
    // both sides alive: the game goes on
    assert_eq!(s.terminal_value(Player::Blue), None);
    assert_eq!(s.terminal_value(Player::Red), None);

    // a board where only red remains
    let mut b = Board::empty();
    put(&mut b, 2, 2, Form::Robot, Player::Red);
    let finished = State { to_play: Player::Blue, board: b };
    assert_eq!(finished.terminal_value(Player::Red), Some(1));
    assert_eq!(finished.terminal_value(Player::Blue), Some(-1));

    // an empty board is lost for whoever asks
    let empty = State { to_play: Player::Blue, board: Board::empty() };
    assert_eq!(empty.terminal_value(Player::Blue), Some(-1));
}

#[test]
fn apply_move_flips_the_player() {
    let s = State::initial_state();
    let mv = vec![
        Action {
            origin: coord_unwrapped(1, 0),
            destination: coord_unwrapped(2, 1),
            transformation: Form::Engineer,
        },
        Action {
            origin: coord_unwrapped(0, 1),
            destination: coord_unwrapped(1, 2),
            transformation: Form::Priest,
        },
    ];
    let next = s.apply_move(&mv);
    assert_eq!(next.to_play, Player::Red);
    assert_eq!(
        next.board.get(coord_unwrapped(2, 1)),
        Some(Piece { form: Form::Engineer, owner: Player::Blue })
    );
    assert_eq!(next.board.get(coord_unwrapped(1, 0)), None);
    // the original state is untouched
    assert_eq!(
        s.board.get(coord_unwrapped(1, 0)),
        Some(Piece { form: Form::Scientist, owner: Player::Blue })
    );
}

#[test]
fn checked_add_stays_on_the_board() {
    let c = coord_unwrapped(4, 4);
    assert!(c.checked_add(RelCoord { x: 1, y: 0 }).is_err());
    assert!(c.checked_add(RelCoord { x: 0, y: 1 }).is_err());
    let moved = c.checked_add(RelCoord { x: -1, y: -2 }).unwrap();
    assert_eq!(moved, coord_unwrapped(3, 2));
    let origin = coord_unwrapped(0, 0);
    assert!(origin.checked_add(RelCoord { x: -1, y: 0 }).is_err());
}
