//! Coordinates of the face-centered-cubic (D3) lattice used by the
//! line-drawing game.
//!
//! A `Real` is a point of Z^3; the lattice consists of the points whose
//! coordinate sum is even. A `VirtD3` addresses lattice points by integral
//! components, and the two representations convert into each other: the
//! conversion from `VirtD3` always succeeds, the one from `Real` fails on
//! points outside the lattice or too large to convert.

use vstd::prelude::*;

verus! {

/// A point in Z^3. May be convertible into a `VirtD3`.
#[derive(PartialEq, Eq, Structural, Clone, Copy, Debug)]
pub struct Real {
    pub x: i16,
    pub y: i16,
    pub z: i16,
}

/// A virtual point with integral components which corresponds to a point in
/// the D3 (also called FCC or A3) lattice. The lattice point can be
/// retrieved by converting to a `Real`.
#[derive(PartialEq, Eq, Structural, Clone, Copy, Debug)]
pub struct VirtD3 {
    pub i: i8,
    pub j: i8,
    pub k: i8,
}

/// Why a `Real` could not be converted to a `VirtD3`.
#[derive(PartialEq, Eq, Structural, Clone, Copy, Debug)]
pub enum RealToVirtError {
    /// The `Real` value was not contained in the FCC/D3/A3 lattice.
    NotInLattice,
    /// The `Real` components were too big or small to convert.
    Saturation,
}

pub fn real_point(x: i16, y: i16, z: i16) -> (r: Real)
    ensures
        r == (Real { x, y, z }),
{
    Real { x, y, z }
}

pub fn virt_d3(i: i8, j: i8, k: i8) -> (r: VirtD3)
    ensures
        r == (VirtD3 { i, j, k }),
{
    VirtD3 { i, j, k }
}

/// The lattice point a `VirtD3` stands for.
pub open spec fn spec_real_of(v: VirtD3) -> Real {
    Real { x: (v.j + v.k) as i16, y: (v.i + v.k) as i16, z: (v.i + v.j) as i16 }
}

/// Whether `n` lies in the `i16` range.
pub open spec fn fits_i16(n: int) -> bool {
    -32768 <= n <= 32767
}

/// The virtual point a `Real` stands for, or the reason there is none:
/// outside the lattice (odd coordinate sum) or out of range, where the
/// ranges mirror the 16-bit intermediate arithmetic of `VirtD3::try_from`.
pub open spec fn spec_virt_of(r: Real) -> Result<VirtD3, RealToVirtError> {
    let x = r.x as int;
    let y = r.y as int;
    let z = r.z as int;
    if !fits_i16(x + y) || !fits_i16(x + y + z) {
        Err(RealToVirtError::Saturation)
    } else if (x + y + z) % 2 != 0 {
        Err(RealToVirtError::NotInLattice)
    } else {
        match (spec_component(y, z, x), spec_component(z, x, y), spec_component(x, y, z)) {
            (Some(i), Some(j), Some(k)) => Ok(VirtD3 { i: i as i8, j: j as i8, k: k as i8 }),
            _ => Err(RealToVirtError::Saturation),
        }
    }
}

/// One component of the conversion: `(p1 + p2 - n) / 2`, if every
/// intermediate fits `i16` and the result fits `i8`.
pub open spec fn spec_component(p1: int, p2: int, n: int) -> Option<int> {
    if !fits_i16(p1 + p2) || !fits_i16(p1 + p2 - n) {
        None
    } else {
        let d = (p1 + p2 - n) / 2;
        if -128 <= d <= 127 {
            Some(d)
        } else {
            None
        }
    }
}

impl VirtD3 {
    /// The conversion from a `Real`, exactly `spec_virt_of`.
    pub fn try_from(value: Real) -> (r: Result<VirtD3, RealToVirtError>)
        ensures
            r == spec_virt_of(value),
    {
        let x = value.x as i32;
        let y = value.y as i32;
        let z = value.z as i32;
        if x + y > 32767 || x + y < -32768 || x + y + z > 32767 || x + y + z < -32768 {
            return Err(RealToVirtError::Saturation);
        }
        let sum = x + y + z;
        let even = if sum >= 0 {
            (sum as u32) % 2 == 0
        } else {
            ((-sum) as u32) % 2 == 0
        };
        proof {
            vstd::arithmetic::div_mod::lemma_mod_multiples_vanish(
                -(sum as int),
                sum as int,
                2,
            );
        }
        if !even {
            return Err(RealToVirtError::NotInLattice);
        }
        let ci = Self::component(y, z, x);
        let cj = Self::component(z, x, y);
        let ck = Self::component(x, y, z);
        match (ci, cj, ck) {
            (Some(i), Some(j), Some(k)) => Ok(VirtD3 { i, j, k }),
            _ => Err(RealToVirtError::Saturation),
        }
    }

    /// One component of `try_from`, exactly `spec_component`.
    fn component(p1: i32, p2: i32, n: i32) -> (r: Option<i8>)
        requires
            -32768 <= p1 <= 32767,
            -32768 <= p2 <= 32767,
            -32768 <= n <= 32767,
        ensures
            r == match spec_component(p1 as int, p2 as int, n as int) {
                Some(d) => Some(d as i8),
                None => None::<i8>,
            },
    {
        if p1 + p2 > 32767 || p1 + p2 < -32768 {
            return None;
        }
        let s = p1 + p2 - n;
        if s > 32767 || s < -32768 {
            return None;
        }
        let d = if s >= 0 {
            ((s as u32) / 2) as i32
        } else {
            let mag = (-s) as u32;
            let q = mag / 2;
            let rem = mag % 2;
            proof {
                crate::ucb::lemma_neg_div((-(s as int)) as int, 2);
            }
            if rem > 0 {
                -((q as i32) + 1)
            } else {
                -(q as i32)
            }
        };
        if d >= -128 && d <= 127 {
            Some(d as i8)
        } else {
            None
        }
    }

    /// Converting a virtual point to its lattice point and back returns the
    /// original point: the two representations are equivalent.
    pub proof fn lemma_real_round_trip(v: VirtD3)
        ensures
            spec_virt_of(spec_real_of(v)) == Ok::<VirtD3, RealToVirtError>(v),
    {
        let r = spec_real_of(v);
        let x = r.x as int;
        let y = r.y as int;
        let z = r.z as int;
        let i = v.i as int;
        let j = v.j as int;
        let k = v.k as int;
        assert(x + y + z == 2 * (i + j + k));
        assert((x + y + z) % 2 == 0) by {
            vstd::arithmetic::div_mod::lemma_mod_multiples_vanish(i + j + k, 0, 2);
        }
        assert((y + z - x) / 2 == i && (z + x - y) / 2 == j && (x + y - z) / 2 == k) by {
            assert(y + z - x == 2 * i && z + x - y == 2 * j && x + y - z == 2 * k);
            vstd::arithmetic::div_mod::lemma_div_multiples_vanish(i, 2);
            vstd::arithmetic::div_mod::lemma_div_multiples_vanish(j, 2);
            vstd::arithmetic::div_mod::lemma_div_multiples_vanish(k, 2);
        }
    }
}

impl Real {
    /// The conversion from a `VirtD3`; always succeeds.
    pub fn from(value: VirtD3) -> (r: Real)
        ensures
            r == spec_real_of(value),
    {
        let i = value.i as i16;
        let j = value.j as i16;
        let k = value.k as i16;
        Real { x: j + k, y: i + k, z: i + j }
    }
}

} // verus!
