use mcts::direction::{Axis, Direction};
use mcts::spice::{real_point, virt_d3, Real, VirtD3};

#[test]
fn direction_double_opposite_is_identity() {
    for d in Direction::all() {
        assert_eq!(d.opposite().opposite(), d);
    }
}

#[test]
fn direction_minus_self_is_zero() {
    for d in Direction::all() {
        let v = d.virt();
        let o = d.opposite().virt();
        assert_eq!((v.i + o.i, v.j + o.j, v.k + o.k), (0, 0, 0));
        let r = d.real_offset();
        let ro = d.opposite().real_offset();
        assert_eq!((r.x + ro.x, r.y + ro.y, r.z + ro.z), (0, 0, 0));
    }
}

#[test]
fn real_virt_conversions_are_equivalent() {
    for d in Direction::all() {
        let r: Real = d.real_offset();
        let v: VirtD3 = d.virt();
        assert_eq!(r, Real::from(v));
        assert_eq!(VirtD3::try_from(r), Ok(v));
    }
}

#[test]
fn axis_directions_are_negatives() {
    for a in [Axis::NeSw, Axis::NwSe, Axis::UnDs, Axis::UsDn, Axis::UeDw, Axis::UwDe] {
        let (d1, d2) = a.directions();
        assert_eq!(d1, d2.opposite());
        assert_eq!(d2, d1.opposite());
        assert_eq!(d1.axis(), a);
        assert_eq!(d2.axis(), a);
    }
}

#[test]
fn direction_offsets_spotcheck() {
    assert_eq!(Direction::NorthEast.virt(), virt_d3(0, 0, 1));
    assert_eq!(Direction::UpNorth.virt(), virt_d3(1, 0, 0));
    assert_eq!(Direction::NorthEast.real_offset(), real_point(1, 1, 0));
}
