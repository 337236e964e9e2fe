//! The twelve lattice directions of the face-centered-cubic grid and the
//! six axes they pair into.
//!
//! Each direction corresponds to one of the twelve nearest-neighbour offsets
//! of the D3 lattice; opposite directions share an axis.

use vstd::prelude::*;
use crate::spice::{spec_real_of, Real, VirtD3};

verus! {

/// A nearest-neighbour direction of the lattice.
#[derive(PartialEq, Eq, Structural, Clone, Copy, Debug)]
pub enum Direction {
    NorthEast,
    NorthWest,
    SouthEast,
    SouthWest,
    UpNorth,
    UpSouth,
    UpEast,
    UpWest,
    DownNorth,
    DownSouth,
    DownEast,
    DownWest,
}

/// An undirected axis: a direction together with its opposite.
#[derive(PartialEq, Eq, Structural, Clone, Copy, Debug)]
pub enum Axis {
    NeSw,
    NwSe,
    UnDs,
    UsDn,
    UeDw,
    UwDe,
}

/// The virtual offset of each direction.
pub open spec fn spec_virt_of_dir(d: Direction) -> VirtD3 {
    match d {
        Direction::NorthEast => VirtD3 { i: 0i8, j: 0i8, k: 1i8 },
        Direction::NorthWest => VirtD3 { i: 1i8, j: -1i8, k: 0i8 },
        Direction::SouthEast => VirtD3 { i: -1i8, j: 1i8, k: 0i8 },
        Direction::SouthWest => VirtD3 { i: 0i8, j: 0i8, k: -1i8 },
        Direction::UpNorth => VirtD3 { i: 1i8, j: 0i8, k: 0i8 },
        Direction::UpSouth => VirtD3 { i: 0i8, j: 1i8, k: -1i8 },
        Direction::UpEast => VirtD3 { i: 0i8, j: 1i8, k: 0i8 },
        Direction::UpWest => VirtD3 { i: 1i8, j: 0i8, k: -1i8 },
        Direction::DownNorth => VirtD3 { i: 0i8, j: -1i8, k: 1i8 },
        Direction::DownSouth => VirtD3 { i: -1i8, j: 0i8, k: 0i8 },
        Direction::DownEast => VirtD3 { i: -1i8, j: 0i8, k: 1i8 },
        Direction::DownWest => VirtD3 { i: 0i8, j: -1i8, k: 0i8 },
    }
}

/// The direction opposite to `d`.
pub open spec fn spec_opposite(d: Direction) -> Direction {
    match d {
        Direction::NorthEast => Direction::SouthWest,
        Direction::NorthWest => Direction::SouthEast,
        Direction::SouthEast => Direction::NorthWest,
        Direction::SouthWest => Direction::NorthEast,
        Direction::UpNorth => Direction::DownSouth,
        Direction::UpSouth => Direction::DownNorth,
        Direction::UpEast => Direction::DownWest,
        Direction::UpWest => Direction::DownEast,
        Direction::DownNorth => Direction::UpSouth,
        Direction::DownSouth => Direction::UpNorth,
        Direction::DownEast => Direction::UpWest,
        Direction::DownWest => Direction::UpEast,
    }
}

/// The axis a direction belongs to.
pub open spec fn spec_axis_of(d: Direction) -> Axis {
    match d {
        Direction::NorthWest | Direction::SouthEast => Axis::NwSe,
        Direction::NorthEast | Direction::SouthWest => Axis::NeSw,
        Direction::UpNorth | Direction::DownSouth => Axis::UnDs,
        Direction::UpSouth | Direction::DownNorth => Axis::UsDn,
        Direction::UpEast | Direction::DownWest => Axis::UeDw,
        Direction::UpWest | Direction::DownEast => Axis::UwDe,
    }
}

/// The two directions of an axis.
pub open spec fn spec_axis_directions(a: Axis) -> (Direction, Direction) {
    match a {
        Axis::NeSw => (Direction::NorthEast, Direction::SouthWest),
        Axis::NwSe => (Direction::NorthWest, Direction::SouthEast),
        Axis::UnDs => (Direction::UpNorth, Direction::DownSouth),
        Axis::UsDn => (Direction::UpSouth, Direction::DownNorth),
        Axis::UeDw => (Direction::UpEast, Direction::DownWest),
        Axis::UwDe => (Direction::UpWest, Direction::DownEast),
    }
}

/// The twelve directions, in their fixed enumeration order.
pub open spec fn spec_all_directions() -> Seq<Direction> {
    seq![
        Direction::NorthEast,
        Direction::NorthWest,
        Direction::SouthEast,
        Direction::SouthWest,
        Direction::UpNorth,
        Direction::UpSouth,
        Direction::UpEast,
        Direction::UpWest,
        Direction::DownNorth,
        Direction::DownSouth,
        Direction::DownEast,
        Direction::DownWest,
    ]
}

impl Direction {
    /// All twelve directions, in a fixed enumeration order, each once.
    pub fn all() -> (r: Vec<Direction>)
        ensures
            r@ == spec_all_directions(),
            r@.len() == 12,
            forall|d: Direction| r@.contains(d),
            forall|a: int, b: int| 0 <= a < b < r@.len() ==> r@[a] != r@[b],
    {
        let mut v: Vec<Direction> = Vec::new();
        v.push(Direction::NorthEast);
        v.push(Direction::NorthWest);
        v.push(Direction::SouthEast);
        v.push(Direction::SouthWest);
        v.push(Direction::UpNorth);
        v.push(Direction::UpSouth);
        v.push(Direction::UpEast);
        v.push(Direction::UpWest);
        v.push(Direction::DownNorth);
        v.push(Direction::DownSouth);
        v.push(Direction::DownEast);
        v.push(Direction::DownWest);
        proof {
            assert(v@ =~= spec_all_directions());
            assert forall|d: Direction| v@.contains(d) by {
                match d {
                    Direction::NorthEast => assert(v@[0] == d),
                    Direction::NorthWest => assert(v@[1] == d),
                    Direction::SouthEast => assert(v@[2] == d),
                    Direction::SouthWest => assert(v@[3] == d),
                    Direction::UpNorth => assert(v@[4] == d),
                    Direction::UpSouth => assert(v@[5] == d),
                    Direction::UpEast => assert(v@[6] == d),
                    Direction::UpWest => assert(v@[7] == d),
                    Direction::DownNorth => assert(v@[8] == d),
                    Direction::DownSouth => assert(v@[9] == d),
                    Direction::DownEast => assert(v@[10] == d),
                    Direction::DownWest => assert(v@[11] == d),
                }
            }
        }
        v
    }

    /// The axis this direction belongs to.
    pub fn axis(self) -> (r: Axis)
        ensures
            r == spec_axis_of(self),
    {
        match self {
            Direction::NorthWest | Direction::SouthEast => Axis::NwSe,
            Direction::NorthEast | Direction::SouthWest => Axis::NeSw,
            Direction::UpNorth | Direction::DownSouth => Axis::UnDs,
            Direction::UpSouth | Direction::DownNorth => Axis::UsDn,
            Direction::UpEast | Direction::DownWest => Axis::UeDw,
            Direction::UpWest | Direction::DownEast => Axis::UwDe,
        }
    }

    /// The direction opposite to this one.
    pub fn opposite(self) -> (r: Direction)
        ensures
            r == spec_opposite(self),
    {
        match self {
            Direction::NorthEast => Direction::SouthWest,
            Direction::NorthWest => Direction::SouthEast,
            Direction::SouthEast => Direction::NorthWest,
            Direction::SouthWest => Direction::NorthEast,
            Direction::UpNorth => Direction::DownSouth,
            Direction::UpSouth => Direction::DownNorth,
            Direction::UpEast => Direction::DownWest,
            Direction::UpWest => Direction::DownEast,
            Direction::DownNorth => Direction::UpSouth,
            Direction::DownSouth => Direction::UpNorth,
            Direction::DownEast => Direction::UpWest,
            Direction::DownWest => Direction::UpEast,
        }
    }

    /// The virtual offset of this direction.
    pub fn virt(self) -> (r: VirtD3)
        ensures
            r == spec_virt_of_dir(self),
    {
        match self {
            Direction::NorthEast => VirtD3 { i: 0i8, j: 0i8, k: 1i8 },
            Direction::NorthWest => VirtD3 { i: 1i8, j: -1i8, k: 0i8 },
            Direction::SouthEast => VirtD3 { i: -1i8, j: 1i8, k: 0i8 },
            Direction::SouthWest => VirtD3 { i: 0i8, j: 0i8, k: -1i8 },
            Direction::UpNorth => VirtD3 { i: 1i8, j: 0i8, k: 0i8 },
            Direction::UpSouth => VirtD3 { i: 0i8, j: 1i8, k: -1i8 },
            Direction::UpEast => VirtD3 { i: 0i8, j: 1i8, k: 0i8 },
            Direction::UpWest => VirtD3 { i: 1i8, j: 0i8, k: -1i8 },
            Direction::DownNorth => VirtD3 { i: 0i8, j: -1i8, k: 1i8 },
            Direction::DownSouth => VirtD3 { i: -1i8, j: 0i8, k: 0i8 },
            Direction::DownEast => VirtD3 { i: -1i8, j: 0i8, k: 1i8 },
            Direction::DownWest => VirtD3 { i: 0i8, j: -1i8, k: 0i8 },
        }
    }

    /// The lattice offset of this direction.
    pub fn real_offset(self) -> (r: Real)
        ensures
            r == spec_real_of(spec_virt_of_dir(self)),
    {
        Real::from(self.virt())
    }

    /// Opposite directions have opposite offsets, so a step followed by the
    /// opposite step returns to the start.
    pub proof fn lemma_opposite_negates(d: Direction)
        ensures
            spec_opposite(spec_opposite(d)) == d,
            spec_virt_of_dir(spec_opposite(d)).i == -spec_virt_of_dir(d).i,
            spec_virt_of_dir(spec_opposite(d)).j == -spec_virt_of_dir(d).j,
            spec_virt_of_dir(spec_opposite(d)).k == -spec_virt_of_dir(d).k,
    {
    }
}

impl Axis {
    /// The two (mutually opposite) directions of this axis.
    pub fn directions(self) -> (r: (Direction, Direction))
        ensures
            r == spec_axis_directions(self),
            r.1 == spec_opposite(r.0),
    {
        match self {
            Axis::NeSw => (Direction::NorthEast, Direction::SouthWest),
            Axis::NwSe => (Direction::NorthWest, Direction::SouthEast),
            Axis::UnDs => (Direction::UpNorth, Direction::DownSouth),
            Axis::UsDn => (Direction::UpSouth, Direction::DownNorth),
            Axis::UeDw => (Direction::UpEast, Direction::DownWest),
            Axis::UwDe => (Direction::UpWest, Direction::DownEast),
        }
    }

    /// The two virtual offsets of this axis.
    pub fn vectors_virt_d3(self) -> (r: (VirtD3, VirtD3))
        ensures
            r.0 == spec_virt_of_dir(spec_axis_directions(self).0),
            r.1 == spec_virt_of_dir(spec_axis_directions(self).1),
    {
        let dirs = self.directions();
        (dirs.0.virt(), dirs.1.virt())
    }

    /// The two lattice offsets of this axis.
    pub fn vectors_real(self) -> (r: (Real, Real))
        ensures
            r.0 == spec_real_of(spec_virt_of_dir(spec_axis_directions(self).0)),
            r.1 == spec_real_of(spec_virt_of_dir(spec_axis_directions(self).1)),
    {
        let dirs = self.directions();
        (dirs.0.real_offset(), dirs.1.real_offset())
    }
}

} // verus!
