//! The spherical grid of the line-drawing game, and move generation on it.
//!
//! Spaces are indexed by `VirtD3` coordinates offset by a constant factor
//! and live inside a sphere: a coordinate belongs to the grid exactly when
//! its squared length is below the squared grid radius. A player's legal
//! moves start at one of its endpoint spaces (cached per player) and step
//! into an adjacent valid, empty space.

use vstd::prelude::*;
use crate::direction::{spec_virt_of_dir, Axis, Direction};
use crate::spice::VirtD3;

verus! {

/// Half the grid's side: coordinates run from minus this to plus this.
pub const GRID_CONSTANT_I: i8 = 5;

/// The squared grid radius, rounded down to the nearest whole number
/// (the radius itself is a little above five).
pub const GRID_RADIUS_SQUARED: i32 = 27;

/// One of the two players of the line-drawing game.
#[derive(PartialEq, Eq, Structural, Clone, Copy, Debug)]
pub enum SpicePlayer {
    Red,
    Blue,
}

/// What a grid space holds.
#[derive(PartialEq, Eq, Structural, Clone, Copy, Debug)]
pub enum GridSpace {
    Empty,
    Blocked,
    LineSegment { axis: Axis, hardened: bool },
    Endpoint { owner: SpicePlayer, connected_lines: u8 },
}

/// A move: from an endpoint the player owns, in one of the twelve lattice
/// directions.
#[derive(PartialEq, Eq, Structural, Clone, Copy, Debug)]
pub struct SpiceMove {
    pub source: VirtD3,
    pub direction: Direction,
}

/// Whether each component of `v` lies within the grid's cube.
pub open spec fn in_cube(v: VirtD3) -> bool {
    -5 <= v.i <= 5 && -5 <= v.j <= 5 && -5 <= v.k <= 5
}

/// Whether `v` lies within the grid's sphere.
pub open spec fn in_sphere(v: VirtD3) -> bool {
    v.i * v.i + v.j * v.j + v.k * v.k <= GRID_RADIUS_SQUARED
}

/// The row-major position of a cube coordinate in the backing vector.
pub open spec fn spec_index(v: VirtD3) -> int {
    (v.i + 5) * 121 + (v.j + 5) * 11 + (v.k + 5)
}

/// The grid: a flat vector of `11 * 11 * 11` slots, one per cube
/// coordinate, holding a space exactly for the coordinates inside the
/// sphere.
#[derive(PartialEq, Eq, Clone, Debug)]
pub struct Grid {
    pub spaces: Vec<Option<GridSpace>>,
}

/// The squared length of a coordinate.
fn norm_sq(a: i8, b: i8, c: i8) -> (r: i32)
    ensures
        r == a * a + b * b + c * c,
{
    proof {
        assert(-20000 <= (a as int) * (a as int) <= 20000 && -20000 <= (b as int) * (b as int)
            <= 20000 && -20000 <= (c as int) * (c as int) <= 20000) by (nonlinear_arith)
            requires
                -128 <= a as int <= 127,
                -128 <= b as int <= 127,
                -128 <= c as int <= 127,
        ;
    }
    (a as i32) * (a as i32) + (b as i32) * (b as i32) + (c as i32) * (c as i32)
}

impl Grid {
    /// The slots cover the cube, and a slot is occupied exactly when its
    /// coordinate lies in the sphere.
    pub open spec fn wf(self) -> bool {
        &&& self.spaces@.len() == 1331
        &&& forall|v: VirtD3|
            in_cube(v) ==> ((#[trigger] self.spaces@[spec_index(v)]) is Some <==> in_sphere(v))
    }

    /// What stands at a coordinate; `None` outside the grid.
    pub open spec fn spec_get(self, v: VirtD3) -> Option<GridSpace> {
        if in_cube(v) {
            self.spaces@[spec_index(v)]
        } else {
            None
        }
    }

    /// An all-empty grid: every space in the sphere is `Empty`.
    pub fn starting() -> (r: Grid)
        ensures
            r.wf(),
            forall|v: VirtD3|
                in_cube(v) && in_sphere(v) ==> #[trigger] r.spec_get(v) == Some(
                    GridSpace::Empty,
                ),
    {
        let mut spaces: Vec<Option<GridSpace>> = Vec::new();
        let mut i: i8 = -5;
        while i <= 5
            invariant
                -5 <= i <= 6,
                spaces@.len() == (i + 5) * 121,
                forall|v: VirtD3|
                    in_cube(v) && spec_index(v) < spaces@.len()
                        ==> ((#[trigger] spaces@[spec_index(v)]) == if in_sphere(v) {
                        Some(GridSpace::Empty)
                    } else {
                        None::<GridSpace>
                    }),
            decreases 6 - i,
        {
            let mut j: i8 = -5;
            while j <= 5
                invariant
                    -5 <= i <= 5,
                    -5 <= j <= 6,
                    spaces@.len() == (i + 5) * 121 + (j + 5) * 11,
                    forall|v: VirtD3|
                        in_cube(v) && spec_index(v) < spaces@.len()
                            ==> ((#[trigger] spaces@[spec_index(v)]) == if in_sphere(v) {
                            Some(GridSpace::Empty)
                        } else {
                            None::<GridSpace>
                        }),
                decreases 6 - j,
            {
                let mut k: i8 = -5;
                while k <= 5
                    invariant
                        -5 <= i <= 5,
                        -5 <= j <= 5,
                        -5 <= k <= 6,
                        spaces@.len() == (i + 5) * 121 + (j + 5) * 11 + (k + 5),
                        forall|v: VirtD3|
                            in_cube(v) && spec_index(v) < spaces@.len()
                                ==> ((#[trigger] spaces@[spec_index(v)]) == if in_sphere(v) {
                                Some(GridSpace::Empty)
                            } else {
                                None::<GridSpace>
                            }),
                    decreases 6 - k,
                {
                    let sq: i32 = norm_sq(i, j, k);
                    let ghost here = VirtD3 { i, j, k };
                    if sq <= GRID_RADIUS_SQUARED {
                        spaces.push(Some(GridSpace::Empty));
                    } else {
                        spaces.push(None);
                    }
                    proof {
                        assert(spec_index(here) == spaces@.len() - 1);
                        assert forall|v: VirtD3|
                            in_cube(v) && spec_index(v) < spaces@.len() implies ((
                        #[trigger] spaces@[spec_index(v)]) == if in_sphere(v) {
                            Some(GridSpace::Empty)
                        } else {
                            None::<GridSpace>
                        }) by {
                            if spec_index(v) == spec_index(here) {
                                assert(v == here);
                            }
                        }
                    }
                    k = k + 1;
                }
                j = j + 1;
            }
            i = i + 1;
        }
        Grid { spaces }
    }

    /// What stands at a coordinate; `None` outside the grid.
    pub fn get_vc(&self, index: VirtD3) -> (r: Option<GridSpace>)
        requires
            self.wf(),
        ensures
            r == self.spec_get(index),
    {
        if index.i < -5 || index.i > 5 || index.j < -5 || index.j > 5 || index.k < -5
            || index.k > 5 {
            return None;
        }
        let idx: usize = ((index.i as i32 + 5) * 121 + (index.j as i32 + 5) * 11 + (index.k
            as i32 + 5)) as usize;
        self.spaces[idx]
    }

    /// Puts `value` at a coordinate inside the sphere; coordinates outside
    /// it are rejected and nothing changes.
    pub fn set_vc(&mut self, index: VirtD3, value: GridSpace) -> (r: Result<(), &'static str>)
        requires
            old(self).wf(),
        ensures
            final(self).wf(),
            in_cube(index) && in_sphere(index) ==> r is Ok && final(self).spec_get(index)
                == Some(value),
            !(in_cube(index) && in_sphere(index)) ==> r is Err && *final(self) == *old(self),
            forall|v: VirtD3| v != index ==> final(self).spec_get(v) == old(self).spec_get(v),
    {
        if index.i < -5 || index.i > 5 || index.j < -5 || index.j > 5 || index.k < -5
            || index.k > 5 {
            return Err("the coordinate is out of sphere bounds");
        }
        let sq: i32 = norm_sq(index.i, index.j, index.k);
        if sq > GRID_RADIUS_SQUARED {
            return Err("the coordinate is out of sphere bounds");
        }
        let idx: usize = ((index.i as i32 + 5) * 121 + (index.j as i32 + 5) * 11 + (index.k
            as i32 + 5)) as usize;
        let slot = &mut self.spaces[idx];
        *slot = Some(value);
        proof {
            assert forall|v: VirtD3|
                in_cube(v) implies ((#[trigger] self.spaces@[spec_index(v)]) is Some
                <==> in_sphere(v)) by {
                if spec_index(v) == idx as int {
                    assert(v == index);
                }
            }
            assert forall|v: VirtD3| v != index implies self.spec_get(v) == old(
                self,
            ).spec_get(v) by {
                if in_cube(v) {
                    assert(spec_index(v) != idx as int);
                }
            }
        }
        Ok(())
    }

    /// Whether a coordinate names a valid, empty space.
    pub fn is_valid_and_empty_vc(&self, index: VirtD3) -> (r: bool)
        requires
            self.wf(),
        ensures
            r == (self.spec_get(index) == Some(GridSpace::Empty)),
    {
        match self.get_vc(index) {
            Some(GridSpace::Empty) => true,
            _ => false,
        }
    }
}

/// The per-player cache of endpoint coordinates, so that move generation
/// does not rescan the whole grid.
#[derive(PartialEq, Eq, Clone, Debug)]
pub struct MoveCache {
    pub blue_endpoint_coords: Vec<VirtD3>,
    pub red_endpoint_coords: Vec<VirtD3>,
}

/// Whether a space is an endpoint owned by `p`.
pub open spec fn spec_endpoint_of(s: Option<GridSpace>, p: SpicePlayer) -> bool {
    s matches Some(GridSpace::Endpoint { owner, .. }) && owner == p
}

impl MoveCache {
    /// The cached coordinates of one player's endpoints.
    pub open spec fn spec_coords(self, p: SpicePlayer) -> Seq<VirtD3> {
        match p {
            SpicePlayer::Blue => self.blue_endpoint_coords@,
            SpicePlayer::Red => self.red_endpoint_coords@,
        }
    }

    /// The cache lists exactly the endpoints each player owns on `g`,
    /// each coordinate once.
    pub open spec fn consistent_with(self, g: Grid) -> bool {
        &&& forall|p: SpicePlayer, v: VirtD3|
            (#[trigger] self.spec_coords(p).contains(v)) <==> spec_endpoint_of(
                g.spec_get(v),
                p,
            )
        &&& forall|p: SpicePlayer, n1: int, n2: int|
            #![trigger self.spec_coords(p)[n1], self.spec_coords(p)[n2]]
            0 <= n1 < n2 < self.spec_coords(p).len() ==> self.spec_coords(p)[n1]
                != self.spec_coords(p)[n2]
    }

    /// The cached coordinates of one player's endpoints.
    pub fn endpoint_coords(&self, player: SpicePlayer) -> (r: &Vec<VirtD3>)
        ensures
            r@ == self.spec_coords(player),
    {
        match player {
            SpicePlayer::Blue => &self.blue_endpoint_coords,
            SpicePlayer::Red => &self.red_endpoint_coords,
        }
    }

    /// Builds the cache by scanning every space of the grid.
    pub fn from_grid(grid: &Grid) -> (r: MoveCache)
        requires
            grid.wf(),
        ensures
            r.consistent_with(*grid),
    {
        let mut blue: Vec<VirtD3> = Vec::new();
        let mut red: Vec<VirtD3> = Vec::new();
        let mut i: i8 = -5;
        while i <= 5
            invariant
                grid.wf(),
                -5 <= i <= 6,
                forall|v: VirtD3|
                    #![trigger blue@.contains(v)]
                    #![trigger red@.contains(v)]
                    (blue@.contains(v) ==> in_cube(v) && v.i < i) && (red@.contains(v)
                        ==> in_cube(v) && v.i < i),
                forall|v: VirtD3|
                    in_cube(v) && v.i < i ==> (blue@.contains(v) <==> spec_endpoint_of(
                        #[trigger] grid.spec_get(v),
                        SpicePlayer::Blue,
                    )) && (red@.contains(v) <==> spec_endpoint_of(
                        grid.spec_get(v),
                        SpicePlayer::Red,
                    )),
                forall|n1: int, n2: int|
                    #![trigger blue@[n1], blue@[n2]]
                    0 <= n1 < n2 < blue@.len() ==> blue@[n1] != blue@[n2],
                forall|n1: int, n2: int|
                    #![trigger red@[n1], red@[n2]]
                    0 <= n1 < n2 < red@.len() ==> red@[n1] != red@[n2],
            decreases 6 - i,
        {
            let mut j: i8 = -5;
            while j <= 5
                invariant
                    grid.wf(),
                    -5 <= i <= 5,
                    -5 <= j <= 6,
                    forall|v: VirtD3|
                        #![trigger blue@.contains(v)]
                        #![trigger red@.contains(v)]
                        (blue@.contains(v) ==> in_cube(v) && (v.i < i || (v.i == i && v.j < j)))
                            && (red@.contains(v) ==> in_cube(v) && (v.i < i || (v.i == i && v.j
                            < j))),
                    forall|v: VirtD3|
                        in_cube(v) && (v.i < i || (v.i == i && v.j < j)) ==> (blue@.contains(v)
                            <==> spec_endpoint_of(
                            #[trigger] grid.spec_get(v),
                            SpicePlayer::Blue,
                        )) && (red@.contains(v) <==> spec_endpoint_of(
                            grid.spec_get(v),
                            SpicePlayer::Red,
                        )),
                    forall|n1: int, n2: int|
                    #![trigger blue@[n1], blue@[n2]]
                    0 <= n1 < n2 < blue@.len() ==> blue@[n1] != blue@[n2],
                forall|n1: int, n2: int|
                    #![trigger red@[n1], red@[n2]]
                    0 <= n1 < n2 < red@.len() ==> red@[n1] != red@[n2],
                decreases 6 - j,
            {
                let mut k: i8 = -5;
                while k <= 5
                    invariant
                        grid.wf(),
                        -5 <= i <= 5,
                        -5 <= j <= 5,
                        -5 <= k <= 6,
                        forall|v: VirtD3|
                            #![trigger blue@.contains(v)]
                            #![trigger red@.contains(v)]
                            (blue@.contains(v) ==> in_cube(v) && (v.i < i || (v.i == i && (v.j
                                < j || (v.j == j && v.k < k))))) && (red@.contains(v)
                                ==> in_cube(v) && (v.i < i || (v.i == i && (v.j < j || (v.j == j
                                && v.k < k))))),
                        forall|v: VirtD3|
                            in_cube(v) && (v.i < i || (v.i == i && (v.j < j || (v.j == j && v.k
                                < k)))) ==> (blue@.contains(v) <==> spec_endpoint_of(
                                #[trigger] grid.spec_get(v),
                                SpicePlayer::Blue,
                            )) && (red@.contains(v) <==> spec_endpoint_of(
                                grid.spec_get(v),
                                SpicePlayer::Red,
                            )),
                        forall|n1: int, n2: int|
                    #![trigger blue@[n1], blue@[n2]]
                    0 <= n1 < n2 < blue@.len() ==> blue@[n1] != blue@[n2],
                forall|n1: int, n2: int|
                    #![trigger red@[n1], red@[n2]]
                    0 <= n1 < n2 < red@.len() ==> red@[n1] != red@[n2],
                    decreases 6 - k,
                {
                    let here = VirtD3 { i, j, k };
                    let ghost blue0 = blue@;
                    let ghost red0 = red@;
                    match grid.get_vc(here) {
                        Some(GridSpace::Endpoint { owner, connected_lines: _ }) => {
                            match owner {
                                SpicePlayer::Blue => blue.push(here),
                                SpicePlayer::Red => red.push(here),
                            }
                        },
                        _ => {},
                    }
                    proof {
                        assert(blue@ == blue0 || blue@ == blue0.push(here));
                        assert(red@ == red0 || red@ == red0.push(here));
                        assert forall|v: VirtD3|
                            #![trigger blue@.contains(v)]
                            #![trigger red@.contains(v)]
                            ((blue@.contains(v) ==> blue0.contains(v) || v == here) && (
                            red@.contains(v) ==> red0.contains(v) || v == here)) by {
                            if blue@.contains(v) && blue@ == blue0.push(here) {
                                let n = choose|n: int|
                                    0 <= n < blue@.len() && #[trigger] blue@[n] == v;
                                if n < blue0.len() {
                                    assert(blue0[n] == v);
                                }
                            }
                            if red@.contains(v) && red@ == red0.push(here) {
                                let n = choose|n: int|
                                    0 <= n < red@.len() && #[trigger] red@[n] == v;
                                if n < red0.len() {
                                    assert(red0[n] == v);
                                }
                            }
                        }
                        if blue@ == blue0.push(here) {
                            assert(blue@[blue0.len() as int] == here);
                            assert(blue@.contains(here));
                        }
                        if red@ == red0.push(here) {
                            assert(red@[red0.len() as int] == here);
                            assert(red@.contains(here));
                        }
                        assert forall|v: VirtD3| blue0.contains(v) implies blue@.contains(
                            v,
                        ) by {
                            let n = choose|n: int|
                                0 <= n < blue0.len() && #[trigger] blue0[n] == v;
                            assert(blue@[n] == v);
                        }
                        assert forall|v: VirtD3| red0.contains(v) implies red@.contains(v) by {
                            let n = choose|n: int|
                                0 <= n < red0.len() && #[trigger] red0[n] == v;
                            assert(red@[n] == v);
                        }
                        assert forall|n1: int, n2: int|
                            #![trigger blue@[n1], blue@[n2]]
                            0 <= n1 < n2 < blue@.len() implies blue@[n1] != blue@[n2] by {
                            if blue@ == blue0.push(here) && n2 == blue0.len() {
                                assert(blue0.contains(blue@[n1])) by {
                                    assert(blue0[n1] == blue@[n1]);
                                }
                            } else {
                                assert(blue@[n1] == blue0[n1] && blue@[n2] == blue0[n2]);
                            }
                        }
                        assert forall|n1: int, n2: int|
                            #![trigger red@[n1], red@[n2]]
                            0 <= n1 < n2 < red@.len() implies red@[n1] != red@[n2] by {
                            if red@ == red0.push(here) && n2 == red0.len() {
                                assert(red0.contains(red@[n1])) by {
                                    assert(red0[n1] == red@[n1]);
                                }
                            } else {
                                assert(red@[n1] == red0[n1] && red@[n2] == red0[n2]);
                            }
                        }
                    }
                    k = k + 1;
                }
                j = j + 1;
            }
            i = i + 1;
        }
        proof {
            assert forall|p: SpicePlayer, v: VirtD3|
                (#[trigger] (MoveCache {
                    blue_endpoint_coords: blue,
                    red_endpoint_coords: red,
                }).spec_coords(p).contains(v)) <==> spec_endpoint_of(grid.spec_get(v), p) by {
                if !in_cube(v) {
                    assert(grid.spec_get(v) is None);
                }
            }
            assert forall|p: SpicePlayer, n1: int, n2: int|
                #![trigger (MoveCache { blue_endpoint_coords: blue, red_endpoint_coords: red }).spec_coords(p)[n1], (MoveCache { blue_endpoint_coords: blue, red_endpoint_coords: red }).spec_coords(p)[n2]]
                0 <= n1 < n2 < (MoveCache {
                    blue_endpoint_coords: blue,
                    red_endpoint_coords: red,
                }).spec_coords(p).len() implies (MoveCache {
                blue_endpoint_coords: blue,
                red_endpoint_coords: red,
            }).spec_coords(p)[n1] != (MoveCache {
                blue_endpoint_coords: blue,
                red_endpoint_coords: red,
            }).spec_coords(p)[n2] by {
                match p {
                    SpicePlayer::Blue => {
                        assert(blue@[n1] != blue@[n2]);
                    },
                    SpicePlayer::Red => {
                        assert(red@[n1] != red@[n2]);
                    },
                }
            }
        }
        MoveCache { blue_endpoint_coords: blue, red_endpoint_coords: red }
    }
}


/// One step from `c` in direction `d`.
pub open spec fn spec_step(c: VirtD3, d: Direction) -> VirtD3 {
    let o = spec_virt_of_dir(d);
    VirtD3 { i: (c.i + o.i) as i8, j: (c.j + o.j) as i8, k: (c.k + o.k) as i8 }
}

/// The moves `player` may make on `grid`: from each of its endpoints, each
/// direction whose neighbouring space is valid and empty. The result holds
/// exactly those moves, each exactly once.
pub fn generate_moves(grid: &Grid, player: SpicePlayer, move_cache: &MoveCache) -> (r: Vec<
    SpiceMove,
>)
    requires
        grid.wf(),
        move_cache.consistent_with(*grid),
    ensures
        forall|m: SpiceMove|
            #[trigger] r@.contains(m) ==> move_cache.spec_coords(player).contains(m.source)
                && grid.spec_get(spec_step(m.source, m.direction)) == Some(GridSpace::Empty),
        forall|c: VirtD3, d: Direction|
            move_cache.spec_coords(player).contains(c) && #[trigger] grid.spec_get(
                spec_step(c, d),
            ) == Some(GridSpace::Empty) ==> r@.contains(SpiceMove { source: c, direction: d }),
        forall|n1: int, n2: int|
            #![trigger r@[n1], r@[n2]]
            0 <= n1 < n2 < r@.len() ==> r@[n1] != r@[n2],
{
    let coords = move_cache.endpoint_coords(player);
    let dirs = Direction::all();
    let mut moves: Vec<SpiceMove> = Vec::new();
    let mut n: usize = 0;
    while n < coords.len()
        invariant
            grid.wf(),
            move_cache.consistent_with(*grid),
            coords@ == move_cache.spec_coords(player),
            dirs@.len() == 12,
            dirs@ == crate::direction::spec_all_directions(),
            forall|d: Direction| dirs@.contains(d),
            forall|a: int, b: int|
                #![trigger dirs@[a], dirs@[b]]
                0 <= a < b < dirs@.len() ==> dirs@[a] != dirs@[b],
            0 <= n <= coords@.len(),
            forall|m: SpiceMove|
                #[trigger] moves@.contains(m) ==> move_cache.spec_coords(player).contains(
                    m.source,
                ) && grid.spec_get(spec_step(m.source, m.direction)) == Some(GridSpace::Empty),
            forall|idx: int, d: Direction|
                0 <= idx < n && #[trigger] grid.spec_get(spec_step(coords@[idx], d)) == Some(
                    GridSpace::Empty,
                ) ==> moves@.contains(SpiceMove { source: coords@[idx], direction: d }),
            forall|t: int|
                0 <= t < moves@.len() ==> exists|idx: int|
                    0 <= idx < n && (#[trigger] moves@[t]).source == coords@[idx],
            forall|n1: int, n2: int|
                #![trigger moves@[n1], moves@[n2]]
                0 <= n1 < n2 < moves@.len() ==> moves@[n1] != moves@[n2],
        decreases coords@.len() - n,
    {
        let c = coords[n];
        proof {
            assert(coords@.contains(c)) by {
                assert(coords@[n as int] == c);
            }
            assert(spec_endpoint_of(grid.spec_get(c), player));
            assert(in_cube(c)) by {
                if !in_cube(c) {
                    assert(grid.spec_get(c) is None);
                }
            }
            assert forall|n1: int, n2: int|
                #![trigger coords@[n1], coords@[n2]]
                0 <= n1 < n2 < coords@.len() implies coords@[n1] != coords@[n2] by {
                assert(move_cache.spec_coords(player)[n1] == coords@[n1]);
                assert(move_cache.spec_coords(player)[n2] == coords@[n2]);
            }
        }
        let mut m: usize = 0;
        while m < dirs.len()
            invariant
                grid.wf(),
                move_cache.consistent_with(*grid),
                coords@ == move_cache.spec_coords(player),
                dirs@.len() == 12,
                0 <= n < coords@.len(),
                coords@[n as int] == c,
                in_cube(c),
                0 <= m <= dirs@.len(),
                forall|mm: SpiceMove|
                    #[trigger] moves@.contains(mm) ==> move_cache.spec_coords(player).contains(
                        mm.source,
                    ) && grid.spec_get(spec_step(mm.source, mm.direction)) == Some(
                        GridSpace::Empty,
                    ),
                forall|idx: int, d: Direction|
                    0 <= idx < n && #[trigger] grid.spec_get(spec_step(coords@[idx], d))
                        == Some(GridSpace::Empty) ==> moves@.contains(
                        SpiceMove { source: coords@[idx], direction: d },
                    ),
                forall|mdx: int|
                    0 <= mdx < m && grid.spec_get(spec_step(c, #[trigger] dirs@[mdx])) == Some(
                        GridSpace::Empty,
                    ) ==> moves@.contains(SpiceMove { source: c, direction: dirs@[mdx] }),
                dirs@ == crate::direction::spec_all_directions(),
                forall|a: int, b: int|
                    #![trigger dirs@[a], dirs@[b]]
                    0 <= a < b < dirs@.len() ==> dirs@[a] != dirs@[b],
                forall|n1: int, n2: int|
                    #![trigger coords@[n1], coords@[n2]]
                    0 <= n1 < n2 < coords@.len() ==> coords@[n1] != coords@[n2],
                forall|t: int|
                    0 <= t < moves@.len() ==> (exists|idx: int|
                        0 <= idx < n && (#[trigger] moves@[t]).source == coords@[idx]) || (
                    moves@[t].source == c && exists|mdx: int|
                        0 <= mdx < m && moves@[t].direction == dirs@[mdx]),
                forall|n1: int, n2: int|
                    #![trigger moves@[n1], moves@[n2]]
                    0 <= n1 < n2 < moves@.len() ==> moves@[n1] != moves@[n2],
            decreases dirs@.len() - m,
        {
            let d = dirs[m];
            let o = d.virt();
            let target = VirtD3 { i: c.i + o.i, j: c.j + o.j, k: c.k + o.k };
            proof {
                assert(target == spec_step(c, d));
            }
            let ghost moves0 = moves@;
            if grid.is_valid_and_empty_vc(target) {
                moves.push(SpiceMove { source: c, direction: d });
            }
            proof {
                assert(moves@ == moves0 || moves@ == moves0.push(
                    SpiceMove { source: c, direction: d },
                ));
                assert forall|mm: SpiceMove| #[trigger]
                    moves@.contains(mm) implies moves0.contains(mm) || mm == (SpiceMove {
                    source: c,
                    direction: d,
                }) by {
                    if moves@ != moves0 {
                        let nn = choose|nn: int|
                            0 <= nn < moves@.len() && #[trigger] moves@[nn] == mm;
                        if nn < moves0.len() {
                            assert(moves0[nn] == mm);
                        }
                    }
                }
                assert forall|mm: SpiceMove| moves0.contains(mm) implies moves@.contains(
                    mm,
                ) by {
                    let nn = choose|nn: int|
                        0 <= nn < moves0.len() && #[trigger] moves0[nn] == mm;
                    assert(moves@[nn] == mm);
                }
                if moves@ != moves0 {
                    assert(moves@[moves0.len() as int] == (SpiceMove {
                        source: c,
                        direction: d,
                    }));
                    assert(moves@.contains(SpiceMove { source: c, direction: d }));
                }
                assert forall|t: int|
                    0 <= t < moves@.len() implies (exists|idx: int|
                        0 <= idx < n && (#[trigger] moves@[t]).source == coords@[idx]) || (
                    moves@[t].source == c && exists|mdx: int|
                        0 <= mdx < m + 1 && moves@[t].direction == dirs@[mdx]) by {
                    if t < moves0.len() {
                        assert(moves@[t] == moves0[t]);
                    } else {
                        assert(moves@[t] == (SpiceMove { source: c, direction: d }));
                        assert(dirs@[m as int] == d);
                    }
                }
                assert forall|n1: int, n2: int|
                    #![trigger moves@[n1], moves@[n2]]
                    0 <= n1 < n2 < moves@.len() implies moves@[n1] != moves@[n2] by {
                    if moves@ != moves0 && n2 == moves0.len() {
                        assert(moves@[n1] == moves0[n1]);
                        assert(moves@[n2] == (SpiceMove { source: c, direction: d }));
                        // the earlier move came from an earlier endpoint or an
                        // earlier direction, both distinct from this one
                        if moves0[n1].source == c {
                            assert(exists|mdx: int|
                                0 <= mdx < m && moves0[n1].direction == #[trigger] dirs@[mdx]);
                            let mdx = choose|mdx: int|
                                0 <= mdx < m && moves0[n1].direction == #[trigger] dirs@[mdx];
                            assert(dirs@[mdx] != dirs@[m as int]);
                        } else {
                        }
                    } else {
                        assert(moves@[n1] == moves0[n1] && moves@[n2] == moves0[n2]);
                    }
                }
            }
            m = m + 1;
        }
        proof {
            assert forall|idx: int, d: Direction|
                0 <= idx < n + 1 && #[trigger] grid.spec_get(spec_step(coords@[idx], d))
                    == Some(GridSpace::Empty) implies moves@.contains(
                SpiceMove { source: coords@[idx], direction: d },
            ) by {
                if idx == n {
                    assert(dirs@.contains(d));
                    let mdx = choose|mdx: int|
                        0 <= mdx < dirs@.len() && #[trigger] dirs@[mdx] == d;
                }
            }
            assert forall|t: int|
                0 <= t < moves@.len() implies exists|idx: int|
                0 <= idx < n + 1 && (#[trigger] moves@[t]).source == coords@[idx] by {
                assert(0 <= n < coords@.len() && moves@[t].source == coords@[n as int]
                    ==> exists|idx: int|
                    0 <= idx < n + 1 && moves@[t].source == coords@[idx]);
            }
        }
        n = n + 1;
    }
    proof {
        assert forall|c: VirtD3, d: Direction|
            move_cache.spec_coords(player).contains(c) && #[trigger] grid.spec_get(
                spec_step(c, d),
            ) == Some(GridSpace::Empty) implies moves@.contains(
            SpiceMove { source: c, direction: d },
        ) by {
            let idx = choose|idx: int|
                0 <= idx < coords@.len() && #[trigger] coords@[idx] == c;
        }
    }
    moves
}

/// Whether `player` has no move at all: no endpoint of its colour has an
/// adjacent valid, empty space.
pub fn out_of_moves(grid: &Grid, player: SpicePlayer, move_cache: &MoveCache) -> (r: bool)
    requires
        grid.wf(),
        move_cache.consistent_with(*grid),
    ensures
        r <==> (forall|c: VirtD3, d: Direction|
            move_cache.spec_coords(player).contains(c) ==> #[trigger] grid.spec_get(
                spec_step(c, d),
            ) != Some(GridSpace::Empty)),
{
    let moves = generate_moves(grid, player, move_cache);
    if moves.len() == 0 {
        true
    } else {
        proof {
            assert(moves@.contains(moves@[0]));
        }
        false
    }
}

} // verus!
