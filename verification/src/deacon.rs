//! The pieces of the five-a-side capture-and-transform board game: players,
//! piece forms, and the movement rules attached to each form.
//!
//! Each form moves up to a fixed range in either the cardinal or the
//! diagonal directions (or both), interacts with an occupied destination by
//! capturing, swapping or not at all, and may transform into a fixed set of
//! other forms as it moves.

use vstd::prelude::*;

verus! {

/// What happens when a piece moves onto an occupied square.
#[derive(PartialEq, Eq, Structural, Clone, Copy, Debug)]
pub enum Interaction {
    Nothing,
    Capture,
    Swap,
}

/// Which directions a form may move in.
#[derive(PartialEq, Eq, Structural, Clone, Copy, Debug, Hash)]
pub enum Directions {
    Cardinal,
    Diagonal,
    All,
}

/// The forms a piece can take.
#[derive(PartialEq, Eq, Structural, Clone, Copy, Debug, Hash, PartialOrd, Ord)]
pub enum Form {
    Captain,
    Engineer,
    Pilot,
    Priest,
    Robot,
    Scientist,
}

/// One of the two players.
#[derive(PartialEq, Eq, Structural, Clone, Copy, Debug, Hash, PartialOrd, Ord)]
pub enum Player {
    Red,
    Blue,
}

/// A piece on the board: a form owned by a player.
#[derive(PartialEq, Eq, Structural, Clone, Copy, Debug, Hash)]
pub struct Piece {
    pub form: Form,
    pub owner: Player,
}

/// A relative board offset.
#[derive(PartialEq, Eq, Structural, Clone, Copy, Debug)]
pub struct RelCoord {
    pub x: i8,
    pub y: i8,
}

pub fn rcoord(x: i8, y: i8) -> (r: RelCoord)
    ensures
        r == (RelCoord { x, y }),
{
    RelCoord { x, y }
}

/// The longest move each form may make.
pub open spec fn spec_max_range(f: Form) -> u8 {
    match f {
        Form::Captain => 5,
        Form::Engineer => 2,
        Form::Pilot => 2,
        Form::Priest => 3,
        Form::Robot => 2,
        Form::Scientist => 1,
    }
}

/// The direction class of each form.
pub open spec fn spec_directions_of(f: Form) -> Directions {
    match f {
        Form::Captain => Directions::All,
        Form::Engineer => Directions::Diagonal,
        Form::Pilot => Directions::Diagonal,
        Form::Priest => Directions::Cardinal,
        Form::Robot => Directions::Cardinal,
        Form::Scientist => Directions::All,
    }
}

/// How each form interacts with an occupied destination.
pub open spec fn spec_interaction_of(f: Form) -> Interaction {
    match f {
        Form::Captain => Interaction::Capture,
        Form::Engineer => Interaction::Swap,
        Form::Pilot => Interaction::Capture,
        Form::Priest => Interaction::Swap,
        Form::Robot => Interaction::Capture,
        Form::Scientist => Interaction::Nothing,
    }
}

/// The forms each form may transform into.
pub open spec fn spec_transformations_of(f: Form) -> Seq<Form> {
    match f {
        Form::Captain => seq![Form::Scientist],
        Form::Engineer => seq![Form::Pilot, Form::Priest],
        Form::Pilot => seq![Form::Engineer, Form::Priest, Form::Captain],
        Form::Priest => seq![Form::Robot, Form::Engineer],
        Form::Robot => seq![Form::Engineer, Form::Priest, Form::Captain],
        Form::Scientist => seq![Form::Engineer, Form::Priest],
    }
}

/// The four cardinal offsets, in the order the rules list them.
pub open spec fn spec_cardinal() -> Seq<RelCoord> {
    seq![
        RelCoord { x: 1i8, y: 0i8 },
        RelCoord { x: 0i8, y: 1i8 },
        RelCoord { x: -1i8, y: 0i8 },
        RelCoord { x: 0i8, y: -1i8 },
    ]
}

/// The four diagonal offsets, in the order the rules list them.
pub open spec fn spec_diagonal() -> Seq<RelCoord> {
    seq![
        RelCoord { x: 1i8, y: 1i8 },
        RelCoord { x: -1i8, y: 1i8 },
        RelCoord { x: 1i8, y: -1i8 },
        RelCoord { x: -1i8, y: -1i8 },
    ]
}

/// The offsets a direction class allows.
pub open spec fn spec_offsets(d: Directions) -> Seq<RelCoord> {
    match d {
        Directions::Cardinal => spec_cardinal(),
        Directions::Diagonal => spec_diagonal(),
        Directions::All => spec_cardinal() + spec_diagonal(),
    }
}

impl Form {
    /// The distances this form may move: every whole number from the first
    /// to the second value of the pair, both inclusive.
    pub fn range(&self) -> (r: (u8, u8))
        ensures
            r.0 == 1,
            r.1 == spec_max_range(*self),
    {
        match self {
            Form::Captain => (1, 5),
            Form::Engineer => (1, 2),
            Form::Pilot => (1, 2),
            Form::Priest => (1, 3),
            Form::Robot => (1, 2),
            Form::Scientist => (1, 1),
        }
    }

    /// How this form interacts with an occupied destination.
    pub fn interaction(&self) -> (r: Interaction)
        ensures
            r == spec_interaction_of(*self),
    {
        match self {
            Form::Captain => Interaction::Capture,
            Form::Engineer => Interaction::Swap,
            Form::Pilot => Interaction::Capture,
            Form::Priest => Interaction::Swap,
            Form::Robot => Interaction::Capture,
            Form::Scientist => Interaction::Nothing,
        }
    }

    /// The forms this form may transform into.
    pub fn transformations(&self) -> (r: Vec<Form>)
        ensures
            r@ == spec_transformations_of(*self),
    {
        let mut v: Vec<Form> = Vec::new();
        match self {
            Form::Captain => {
                v.push(Form::Scientist);
            },
            Form::Engineer => {
                v.push(Form::Pilot);
                v.push(Form::Priest);
            },
            Form::Pilot => {
                v.push(Form::Engineer);
                v.push(Form::Priest);
                v.push(Form::Captain);
            },
            Form::Priest => {
                v.push(Form::Robot);
                v.push(Form::Engineer);
            },
            Form::Robot => {
                v.push(Form::Engineer);
                v.push(Form::Priest);
                v.push(Form::Captain);
            },
            Form::Scientist => {
                v.push(Form::Engineer);
                v.push(Form::Priest);
            },
        }
        proof {
            assert(v@ =~= spec_transformations_of(*self));
        }
        v
    }

    /// The board offsets this form may move along.
    pub fn directions(&self) -> (r: Vec<RelCoord>)
        ensures
            r@ == spec_offsets(spec_directions_of(*self)),
    {
        let d = match self {
            Form::Captain => Directions::All,
            Form::Engineer => Directions::Diagonal,
            Form::Pilot => Directions::Diagonal,
            Form::Priest => Directions::Cardinal,
            Form::Robot => Directions::Cardinal,
            Form::Scientist => Directions::All,
        };
        let mut v: Vec<RelCoord> = Vec::new();
        if matches!(d, Directions::Cardinal) || matches!(d, Directions::All) {
            v.push(RelCoord { x: 1, y: 0 });
            v.push(RelCoord { x: 0, y: 1 });
            v.push(RelCoord { x: -1, y: 0 });
            v.push(RelCoord { x: 0, y: -1 });
        }
        if matches!(d, Directions::Diagonal) || matches!(d, Directions::All) {
            v.push(RelCoord { x: 1, y: 1 });
            v.push(RelCoord { x: -1, y: 1 });
            v.push(RelCoord { x: 1, y: -1 });
            v.push(RelCoord { x: -1, y: -1 });
        }
        proof {
            assert(v@ =~= spec_offsets(spec_directions_of(*self)));
        }
        v
    }
}

} // verus!
