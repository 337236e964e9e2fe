use mcts::direction::Direction;
use mcts::grid::{
    generate_moves, out_of_moves, Grid, GridSpace, MoveCache, SpiceMove, SpicePlayer,
};
use mcts::spice::virt_d3;

fn endpoint(owner: SpicePlayer) -> GridSpace {
    GridSpace::Endpoint { owner, connected_lines: 0 }
}

fn sorted(mut moves: Vec<SpiceMove>) -> Vec<SpiceMove> {
    moves.sort_by_key(|m| {
        let v = m.direction.virt();
        (m.source.i, m.source.j, m.source.k, v.i, v.j, v.k)
    });
    moves
}

fn smove(i: i8, j: i8, k: i8, d: Direction) -> SpiceMove {
    SpiceMove { source: virt_d3(i, j, k), direction: d }
}

#[test]
fn empty_grid_has_no_moves() {
    let grid = Grid::starting();
    let cache = MoveCache::from_grid(&grid);
    assert!(generate_moves(&grid, SpicePlayer::Blue, &cache).is_empty());
    assert!(out_of_moves(&grid, SpicePlayer::Blue, &cache));
}

#[test]
fn moves_only_for_own_endpoints() {
    let mut grid = Grid::starting();
    grid.set_vc(virt_d3(0, 0, 0), endpoint(SpicePlayer::Blue)).unwrap();
    let cache = MoveCache::from_grid(&grid);
    assert!(generate_moves(&grid, SpicePlayer::Red, &cache).is_empty());
    assert_eq!(generate_moves(&grid, SpicePlayer::Blue, &cache).len(), 12);
}

#[test]
fn center_endpoint_moves_in_all_directions() {
    let mut grid = Grid::starting();
    grid.set_vc(virt_d3(0, 0, 0), endpoint(SpicePlayer::Blue)).unwrap();
    let cache = MoveCache::from_grid(&grid);
    let moves = generate_moves(&grid, SpicePlayer::Blue, &cache);
    assert_eq!(moves.len(), 12);
    for d in Direction::all() {
        assert!(moves.contains(&smove(0, 0, 0, d)));
    }
}

#[test]
fn corner_endpoint_moves_stay_in_the_sphere() {
    let mut grid = Grid::starting();
    grid.set_vc(virt_d3(3, 3, 3), endpoint(SpicePlayer::Blue)).unwrap();
    let cache = MoveCache::from_grid(&grid);
    let moves = sorted(generate_moves(&grid, SpicePlayer::Blue, &cache));
    let expected = sorted(vec![
        smove(3, 3, 3, Direction::SouthWest),
        smove(3, 3, 3, Direction::DownSouth),
        smove(3, 3, 3, Direction::DownWest),
    ]);
    assert_eq!(moves, expected);
}

#[test]
fn opposite_corner_for_red() {
    let mut grid = Grid::starting();
    grid.set_vc(virt_d3(-3, -3, -3), endpoint(SpicePlayer::Red)).unwrap();
    let cache = MoveCache::from_grid(&grid);
    let moves = sorted(generate_moves(&grid, SpicePlayer::Red, &cache));
    let expected = sorted(vec![
        smove(-3, -3, -3, Direction::NorthEast),
        smove(-3, -3, -3, Direction::UpNorth),
        smove(-3, -3, -3, Direction::UpEast),
    ]);
    assert_eq!(moves, expected);
}

#[test]
fn blocked_neighbours_are_skipped() {
    let mut grid = Grid::starting();
    grid.set_vc(virt_d3(0, 0, 0), endpoint(SpicePlayer::Red)).unwrap();
    for (v, s) in [
        (virt_d3(0, 0, 1), endpoint(SpicePlayer::Blue)),
        (virt_d3(1, -1, 0), endpoint(SpicePlayer::Blue)),
        (virt_d3(-1, 1, 0), endpoint(SpicePlayer::Blue)),
        (virt_d3(0, 0, -1), endpoint(SpicePlayer::Blue)),
    ] {
        grid.set_vc(v, s).unwrap();
    }
    let cache = MoveCache::from_grid(&grid);
    let moves = generate_moves(&grid, SpicePlayer::Red, &cache);
    // the four planar neighbours are taken, the eight others remain
    assert_eq!(moves.len(), 8);
    assert!(!moves.contains(&smove(0, 0, 0, Direction::NorthEast)));
    assert!(moves.contains(&smove(0, 0, 0, Direction::UpNorth)));
    assert!(!out_of_moves(&grid, SpicePlayer::Red, &cache));
}

#[test]
fn grid_set_rejects_out_of_sphere() {
    let mut grid = Grid::starting();
    assert!(grid.set_vc(virt_d3(0, 0, 0), GridSpace::Blocked).is_ok());
    assert!(grid.set_vc(virt_d3(1, 2, 3), GridSpace::Empty).is_ok());
    assert!(grid.set_vc(virt_d3(6, 5, 5), GridSpace::Empty).is_err());
    assert!(grid.set_vc(virt_d3(i8::MAX, i8::MAX, i8::MAX), GridSpace::Empty).is_err());
    assert!(grid.set_vc(virt_d3(-4, -4, 4), GridSpace::Empty).is_err());
    assert_eq!(grid.get_vc(virt_d3(0, 0, 0)), Some(GridSpace::Blocked));
    assert_eq!(grid.get_vc(virt_d3(5, 5, 5)), None);
    assert_eq!(grid.get_vc(virt_d3(0, 0, 4)), Some(GridSpace::Empty));
}
