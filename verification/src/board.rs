//! The five-by-five board of the capture-and-transform game, its
//! coordinates, and how an action and a move change it.

use vstd::prelude::*;
use crate::deacon::{Form, Interaction, Piece, Player, RelCoord};


verus! {

/// The width and height of the board.
pub const BOARD_LENGTH: usize = 5;

/// One coordinate component: a whole number below the board length.
#[derive(PartialEq, Eq, Structural, Clone, Copy, Debug)]
pub enum CoordCmpnt {
    Zero,
    One,
    Two,
    Three,
    Four,
}

impl CoordCmpnt {
    /// The numeric value of the component.
    pub open spec fn spec_index(self) -> int {
        match self {
            CoordCmpnt::Zero => 0,
            CoordCmpnt::One => 1,
            CoordCmpnt::Two => 2,
            CoordCmpnt::Three => 3,
            CoordCmpnt::Four => 4,
        }
    }

    /// The numeric value of the component.
    pub fn as_index(self) -> (r: usize)
        ensures
            r == self.spec_index(),
    {
        match self {
            CoordCmpnt::Zero => 0,
            CoordCmpnt::One => 1,
            CoordCmpnt::Two => 2,
            CoordCmpnt::Three => 3,
            CoordCmpnt::Four => 4,
        }
    }

    /// The component with numeric value `value`, which must be on the board.
    pub fn try_from_i32(value: i32) -> (r: Result<CoordCmpnt, &'static str>)
        ensures
            0 <= value <= 4 ==> (r matches Ok(c) && c.spec_index() == value),
            !(0 <= value <= 4) ==> r is Err,
    {
        match value {
            0 => Ok(CoordCmpnt::Zero),
            1 => Ok(CoordCmpnt::One),
            2 => Ok(CoordCmpnt::Two),
            3 => Ok(CoordCmpnt::Three),
            4 => Ok(CoordCmpnt::Four),
            _ => Err("value must be in range [0, 4]"),
        }
    }
}

/// A square of the board.
#[derive(PartialEq, Eq, Structural, Clone, Copy, Debug)]
pub struct Coordinate {
    pub x: CoordCmpnt,
    pub y: CoordCmpnt,
}

impl Coordinate {
    /// Adds a relative offset, failing when the result leaves the board.
    pub fn checked_add(self, other: RelCoord) -> (r: Result<Coordinate, &'static str>)
        ensures
            ({
                let nx = self.x.spec_index() + other.x as int;
                let ny = self.y.spec_index() + other.y as int;
                if 0 <= nx <= 4 && 0 <= ny <= 4 {
                    r matches Ok(c) && c.x.spec_index() == nx && c.y.spec_index() == ny
                } else {
                    r is Err
                }
            }),
    {
        let nx = self.x.as_index() as i32 + other.x as i32;
        let ny = self.y.as_index() as i32 + other.y as i32;
        match (CoordCmpnt::try_from_i32(nx), CoordCmpnt::try_from_i32(ny)) {
            (Ok(x), Ok(y)) => Ok(Coordinate { x, y }),
            (Err(e), _) => Err(e),
            (_, Err(e)) => Err(e),
        }
    }
}

/// The square with the given numeric coordinates, which must be on the
/// board.
pub fn coord_unwrapped(x: u8, y: u8) -> (r: Coordinate)
    requires
        x < 5,
        y < 5,
    ensures
        r.x.spec_index() == x,
        r.y.spec_index() == y,
{
    match (CoordCmpnt::try_from_i32(x as i32), CoordCmpnt::try_from_i32(y as i32)) {
        (Ok(cx), Ok(cy)) => Coordinate { x: cx, y: cy },
        _ => vstd::pervasive::unreached(),
    }
}

/// The game board: a five-by-five grid of optional pieces, stored row by
/// row.
#[derive(PartialEq, Eq, Clone, Debug)]
pub struct Board {
    pub positions: Vec<Vec<Option<Piece>>>,
}

impl Board {
    /// The grid is exactly five rows of five squares.
    pub open spec fn wf(self) -> bool {
        &&& self.positions@.len() == 5
        &&& forall|r: int| 0 <= r < 5 ==> (#[trigger] self.positions@[r])@.len() == 5
    }

    /// What stands on a square.
    pub open spec fn spec_at(self, c: Coordinate) -> Option<Piece> {
        self.positions@[c.y.spec_index()]@[c.x.spec_index()]
    }

    /// The piece the starting position puts on a square: a blue scientist on
    /// each of two squares near one corner, a red one near the other.
    pub open spec fn spec_initial_at(x: int, y: int) -> Option<Piece> {
        if (x == 1 && y == 0) || (x == 0 && y == 1) {
            Some(Piece { form: Form::Scientist, owner: Player::Blue })
        } else if (x == 4 && y == 3) || (x == 3 && y == 4) {
            Some(Piece { form: Form::Scientist, owner: Player::Red })
        } else {
            None
        }
    }

    /// An empty board.
    pub fn empty() -> (r: Board)
        ensures
            r.wf(),
            forall|c: Coordinate| r.spec_at(c) is None,
    {
        let mut positions: Vec<Vec<Option<Piece>>> = Vec::new();
        let mut row_n: usize = 0;
        while row_n < 5
            invariant
                positions@.len() == row_n,
                row_n <= 5,
                forall|r: int|
                    0 <= r < row_n ==> (#[trigger] positions@[r])@.len() == 5 && forall|c: int|
                        0 <= c < 5 ==> positions@[r]@[c] is None,
            decreases 5 - row_n,
        {
            let mut row: Vec<Option<Piece>> = Vec::new();
            let mut col: usize = 0;
            while col < 5
                invariant
                    row@.len() == col,
                    col <= 5,
                    forall|c: int| 0 <= c < col ==> row@[c] is None,
                decreases 5 - col,
            {
                row.push(None);
                col = col + 1;
            }
            positions.push(row);
            row_n = row_n + 1;
        }
        Board { positions }
    }

    /// What stands on a square.
    pub fn get(&self, coord: Coordinate) -> (r: Option<Piece>)
        requires
            self.wf(),
        ensures
            r == self.spec_at(coord),
    {
        self.positions[coord.y.as_index()][coord.x.as_index()]
    }

    /// Puts `value` on a square, leaving every other square alone.
    pub fn set(&mut self, coord: Coordinate, value: Option<Piece>)
        requires
            old(self).wf(),
        ensures
            final(self).wf(),
            final(self).spec_at(coord) == value,
            forall|c: Coordinate| c != coord ==> final(self).spec_at(c) == old(self).spec_at(c),
    {
        let y = coord.y.as_index();
        let x = coord.x.as_index();
        let row = &mut self.positions[y];
        row[x] = value;
        proof {
            assert forall|c: Coordinate| c != coord implies self.spec_at(c) == old(
                self,
            ).spec_at(c) by {
                if c.y == coord.y {
                    assert(c.x.spec_index() != coord.x.spec_index());
                } else {
                    assert(c.y.spec_index() != coord.y.spec_index());
                }
            }
        }
    }

    /// The starting position.
    pub fn starting() -> (r: Board)
        ensures
            r.wf(),
            forall|c: Coordinate| #[trigger]
                r.spec_at(c) == Board::spec_initial_at(c.x.spec_index(), c.y.spec_index()),
    {
        let mut b = Board::empty();
        b.set(coord_unwrapped(1, 0), Some(Piece { form: Form::Scientist, owner: Player::Blue }));
        b.set(coord_unwrapped(0, 1), Some(Piece { form: Form::Scientist, owner: Player::Blue }));
        b.set(coord_unwrapped(4, 3), Some(Piece { form: Form::Scientist, owner: Player::Red }));
        b.set(coord_unwrapped(3, 4), Some(Piece { form: Form::Scientist, owner: Player::Red }));
        b
    }

    /// Whether `p` still has a piece on the board.
    pub open spec fn spec_alive(self, p: Player) -> bool {
        exists|c: Coordinate| (#[trigger] self.spec_at(c)) matches Some(piece) && piece.owner == p
    }

    /// Whether `p` still has a piece on the board.
    pub fn alive(&self, p: Player) -> (r: bool)
        requires
            self.wf(),
        ensures
            r == self.spec_alive(p),
    {
        let mut y: u8 = 0;
        while y < 5
            invariant
                self.wf(),
                y <= 5,
                forall|c: Coordinate|
                    c.y.spec_index() < y ==> !((#[trigger] self.spec_at(c)) matches Some(piece)
                        && piece.owner == p),
            decreases 5 - y,
        {
            let mut x: u8 = 0;
            while x < 5
                invariant
                    self.wf(),
                    x <= 5,
                    y < 5,
                    forall|c: Coordinate|
                        c.y.spec_index() < y ==> !((#[trigger] self.spec_at(c)) matches Some(
                            piece,
                        ) && piece.owner == p),
                    forall|c: Coordinate|
                        c.y.spec_index() == y && c.x.spec_index() < x ==> !((
                        #[trigger] self.spec_at(c)) matches Some(piece) && piece.owner == p),
                decreases 5 - x,
            {
                let coord = coord_unwrapped(x, y);
                match self.get(coord) {
                    Some(piece) => {
                        if matches!(piece.owner, Player::Red) == matches!(p, Player::Red) {
                            proof {
                                assert(piece.owner == p);
                                assert(self.spec_at(coord) matches Some(q) && q.owner == p);
                            }
                            return true;
                        }
                    },
                    None => {},
                }
                proof {
                    assert forall|c: Coordinate|
                        c.y.spec_index() == y && c.x.spec_index() < x + 1 implies !((
                    #[trigger] self.spec_at(c)) matches Some(piece) && piece.owner == p) by {
                        if c.x.spec_index() == x {
                            assert(c == coord_unwrapped_spec(x as int, y as int));
                        }
                    }
                }
                x = x + 1;
            }
            proof {
                assert forall|c: Coordinate| c.y.spec_index() < y + 1 implies !((
                #[trigger] self.spec_at(c)) matches Some(piece) && piece.owner == p) by {
                    if c.y.spec_index() == y {
                        assert(c.x.spec_index() < 5);
                    }
                }
            }
            y = y + 1;
        }
        proof {
            assert forall|c: Coordinate| !((#[trigger] self.spec_at(c)) matches Some(piece)
                && piece.owner == p) by {
                assert(c.y.spec_index() < 5);
            }
        }
        false
    }
}

/// The coordinate with the given numeric components.
pub open spec fn coord_unwrapped_spec(x: int, y: int) -> Coordinate {
    Coordinate { x: cmpnt_spec(x), y: cmpnt_spec(y) }
}

/// The component with the given numeric value.
pub open spec fn cmpnt_spec(n: int) -> CoordCmpnt {
    if n == 0 {
        CoordCmpnt::Zero
    } else if n == 1 {
        CoordCmpnt::One
    } else if n == 2 {
        CoordCmpnt::Two
    } else if n == 3 {
        CoordCmpnt::Three
    } else {
        CoordCmpnt::Four
    }
}


/// One piece's move: it leaves `origin`, arrives at `destination`, and
/// takes form `transformation` there.
#[derive(PartialEq, Eq, Structural, Clone, Copy, Debug)]
pub struct Action {
    pub origin: Coordinate,
    pub destination: Coordinate,
    pub transformation: Form,
}

/// A full move: one action per piece of the moving player.
pub type Move = Vec<Action>;

/// The abstract contents of a board, row by row.
pub open spec fn grid_of(b: Board) -> Seq<Seq<Option<Piece>>> {
    Seq::new(5, |r: int| b.positions@[r]@)
}

/// What stands on a square of an abstract grid.
pub open spec fn grid_at(g: Seq<Seq<Option<Piece>>>, c: Coordinate) -> Option<Piece> {
    g[c.y.spec_index()][c.x.spec_index()]
}

/// The grid with one square replaced.
pub open spec fn grid_set(
    g: Seq<Seq<Option<Piece>>>,
    c: Coordinate,
    v: Option<Piece>,
) -> Seq<Seq<Option<Piece>>> {
    g.update(c.y.spec_index(), g[c.y.spec_index()].update(c.x.spec_index(), v))
}

/// The grid after one action: the moved piece stands on the destination in
/// its new form; the origin keeps the displaced piece when the mover swaps
/// and empties otherwise. Meaningful only when the origin is occupied.
pub open spec fn spec_apply_action(g: Seq<Seq<Option<Piece>>>, a: Action) -> Seq<
    Seq<Option<Piece>>,
> {
    let mover = grid_at(g, a.origin)->0;
    let at_origin: Option<Piece> = if crate::deacon::spec_interaction_of(mover.form)
        == Interaction::Swap {
        grid_at(g, a.destination)
    } else {
        None
    };
    grid_set(
        grid_set(g, a.origin, at_origin),
        a.destination,
        Some(Piece { form: a.transformation, owner: mover.owner }),
    )
}

/// Whether a sequence of actions can be applied in order: each action in
/// turn finds a piece on its origin square.
pub open spec fn spec_actions_ok(g: Seq<Seq<Option<Piece>>>, s: Seq<Action>) -> bool
    decreases s.len(),
{
    s.len() == 0 || (grid_at(g, s[0].origin) is Some && spec_actions_ok(
        spec_apply_action(g, s[0]),
        s.skip(1),
    ))
}

/// The grid after a sequence of actions.
pub open spec fn spec_apply_actions(g: Seq<Seq<Option<Piece>>>, s: Seq<Action>) -> Seq<
    Seq<Option<Piece>>,
>
    decreases s.len(),
{
    if s.len() == 0 {
        g
    } else {
        spec_apply_actions(spec_apply_action(g, s[0]), s.skip(1))
    }
}

/// Applies one action to the board. The origin must hold a piece; illegal
/// actions are ruled out by the precondition rather than checked.
pub fn apply_action(board: &mut Board, action: &Action)
    requires
        old(board).wf(),
        old(board).spec_at(action.origin) is Some,
    ensures
        final(board).wf(),
        grid_of(*final(board)) == spec_apply_action(grid_of(*old(board)), *action),
{
    let original_piece = match board.get(action.origin) {
        Some(p) => p,
        None => vstd::pervasive::unreached(),
    };
    let new_at_origin = match original_piece.form.interaction() {
        Interaction::Swap => board.get(action.destination),
        _ => None,
    };
    let new_at_destination = Some(
        Piece { form: action.transformation, owner: original_piece.owner },
    );
    board.set(action.origin, new_at_origin);
    board.set(action.destination, new_at_destination);
    proof {
        let g0 = grid_of(*old(board));
        let g2 = spec_apply_action(g0, *action);
        assert forall|r: int, c: int|
            0 <= r < 5 && 0 <= c < 5 implies grid_of(*board)[r][c] == g2[r][c] by {
            let here = coord_unwrapped_spec(c, r);
            assert(here.y.spec_index() == r && here.x.spec_index() == c);
            assert(board.spec_at(here) == grid_of(*board)[r][c]);
            if here == action.destination {
            } else if here == action.origin {
            } else {
                assert(board.spec_at(here) == old(board).spec_at(here));
            }
        }
        assert(grid_of(*board) =~~= g2);
    }
}

/// Applies a full move, one action after the other.
pub fn apply_move(board: &mut Board, move_: &Move)
    requires
        old(board).wf(),
        spec_actions_ok(grid_of(*old(board)), move_@),
    ensures
        final(board).wf(),
        grid_of(*final(board)) == spec_apply_actions(grid_of(*old(board)), move_@),
{
    let mut i: usize = 0;
    proof {
        assert(move_@.skip(0) =~= move_@);
    }
    while i < move_.len()
        invariant
            board.wf(),
            0 <= i <= move_@.len(),
            spec_actions_ok(grid_of(*board), move_@.skip(i as int)),
            spec_apply_actions(grid_of(*board), move_@.skip(i as int)) == spec_apply_actions(
                grid_of(*old(board)),
                move_@,
            ),
        decreases move_@.len() - i,
    {
        let ghost pre = grid_of(*board);
        proof {
            assert(move_@.skip(i as int)[0] == move_@[i as int]);
        }
        apply_action(board, &move_[i]);
        proof {
            assert(move_@.skip(i as int).skip(1) =~= move_@.skip(i as int + 1));
            assert(grid_of(*board) == spec_apply_action(pre, move_@[i as int]));
        }
        i = i + 1;
    }
    proof {
        assert(move_@.skip(move_@.len() as int).len() == 0);
    }
}

/// The player whose pieces the opponent wants gone.
pub fn opponent(p: Player) -> (r: Player)
    ensures
        r != p,
{
    match p {
        Player::Red => Player::Blue,
        Player::Blue => Player::Red,
    }
}

/// A position of the capture-and-transform game: whose turn it is, and the
/// board.
#[derive(PartialEq, Eq, Clone, Debug)]
pub struct State {
    pub to_play: Player,
    pub board: Board,
}

impl State {
    /// The state at the start of a game: blue to play on the starting board.
    pub fn initial_state() -> (r: State)
        ensures
            r.board.wf(),
            r.to_play == Player::Blue,
            forall|c: Coordinate| #[trigger]
                r.board.spec_at(c) == Board::spec_initial_at(c.x.spec_index(), c.y.spec_index()),
    {
        State { to_play: Player::Blue, board: Board::starting() }
    }

    /// The player whose turn it is.
    pub fn next_to_play(&self) -> (r: Player)
        ensures
            r == self.to_play,
    {
        self.to_play
    }

    /// The state after the given move: the board changes accordingly and
    /// the other player is to move. The move must be applicable.
    pub fn apply_move(&self, move_: &Move) -> (r: State)
        requires
            self.board.wf(),
            spec_actions_ok(grid_of(self.board), move_@),
        ensures
            r.board.wf(),
            grid_of(r.board) == spec_apply_actions(grid_of(self.board), move_@),
            r.to_play != self.to_play,
    {
        let to_play = opponent(self.to_play);
        let mut board = copy_board(&self.board);
        apply_move(&mut board, move_);
        State { to_play, board }
    }

    /// `None` while both players have pieces; once only one side (or no
    /// side) is left, the position is worth one to `for_player` if its own
    /// pieces remain and minus one otherwise.
    pub fn terminal_value(&self, for_player: Player) -> (r: Option<i64>)
        requires
            self.board.wf(),
        ensures
            self.board.spec_alive(for_player) && self.board.spec_alive(
                spec_opponent(for_player),
            ) ==> r is None,
            !(self.board.spec_alive(for_player) && self.board.spec_alive(
                spec_opponent(for_player),
            )) ==> r == Some(
                if self.board.spec_alive(for_player) {
                    1i64
                } else {
                    -1i64
                },
            ),
    {
        let self_alive = self.board.alive(for_player);
        let other_alive = self.board.alive(opponent(for_player));
        proof {
            assert(spec_opponent(for_player) != for_player);
        }
        if self_alive && other_alive {
            None
        } else if self_alive {
            Some(1)
        } else {
            Some(-1)
        }
    }
}

/// The other player.
pub open spec fn spec_opponent(p: Player) -> Player {
    match p {
        Player::Red => Player::Blue,
        Player::Blue => Player::Red,
    }
}

/// An exact copy of a board.
fn copy_board(b: &Board) -> (r: Board)
    requires
        b.wf(),
    ensures
        r.wf(),
        grid_of(r) == grid_of(*b),
        forall|c: Coordinate| #[trigger] r.spec_at(c) == b.spec_at(c),
{
    let mut r = Board::empty();
    let mut y: u8 = 0;
    while y < 5
        invariant
            b.wf(),
            r.wf(),
            y <= 5,
            forall|c: Coordinate|
                c.y.spec_index() < y ==> #[trigger] r.spec_at(c) == b.spec_at(c),
        decreases 5 - y,
    {
        let mut x: u8 = 0;
        while x < 5
            invariant
                b.wf(),
                r.wf(),
                y < 5,
                x <= 5,
                forall|c: Coordinate|
                    c.y.spec_index() < y ==> #[trigger] r.spec_at(c) == b.spec_at(c),
                forall|c: Coordinate|
                    c.y.spec_index() == y && c.x.spec_index() < x ==> #[trigger] r.spec_at(c)
                        == b.spec_at(c),
            decreases 5 - x,
        {
            let coord = coord_unwrapped(x, y);
            let v = b.get(coord);
            r.set(coord, v);
            x = x + 1;
        }
        proof {
            assert forall|c: Coordinate| c.y.spec_index() < y + 1 implies #[trigger] r.spec_at(
                c,
            ) == b.spec_at(c) by {
                if c.y.spec_index() == y {
                    assert(c.x.spec_index() < 5);
                }
            }
        }
        y = y + 1;
    }
    proof {
        assert forall|rr: int, cc: int|
            0 <= rr < 5 && 0 <= cc < 5 implies grid_of(r)[rr][cc] == grid_of(*b)[rr][cc] by {
            let here = coord_unwrapped_spec(cc, rr);
            assert(r.spec_at(here) == b.spec_at(here));
        }
        assert(grid_of(r) =~~= grid_of(*b));
    }
    r
}

} // verus!
