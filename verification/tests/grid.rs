use std::collections::VecDeque;

use stitchlands::astar::astar;
use stitchlands::grid::{Grid2D, GridConfig, TileId};
use stitchlands::ids::PawnId;
use stitchlands::occupancy::{Occupancy, OccupancyMap};
use stitchlands::paths::{manhattan, manhattan_path, manhattan_path_adj};
use stitchlands::tile_index::TileMapIndex;

#[test]
fn grid_indexing() {
    let cfg = GridConfig { width: 4, height: 2 };
    let g: Grid2D<i32> = Grid2D::new(cfg, 0);
    assert_eq!(cfg.index(TileId::new(0, 0)), Some(0));
    assert_eq!(cfg.index(TileId::new(3, 0)), Some(3));
    assert_eq!(cfg.index(TileId::new(0, 1)), Some(4));
    assert!(cfg.index(TileId::new(4, 0)).is_none());
    assert_eq!(g.get(TileId::new(2, 1)), Some(&0));
}

#[test]
fn grid_rejects_negative_and_far_tiles() {
    let cfg = GridConfig { width: 3, height: 3 };
    assert!(!cfg.in_bounds(TileId::new(-1, 0)));
    assert!(!cfg.in_bounds(TileId::new(0, 3)));
    assert!(cfg.in_bounds(TileId::new(2, 2)));
    let mut g: Grid2D<u8> = Grid2D::new(cfg, 1);
    g.set(TileId::new(1, 2), 9);
    g.set(TileId::new(5, 5), 7);
    assert_eq!(g.get(TileId::new(1, 2)), Some(&9));
    assert_eq!(g.get(TileId::new(5, 5)), None);
    assert_eq!(g.data.iter().filter(|v| **v == 9).count(), 1);
}

#[test]
fn set_get_move_clear() {
    let cfg = GridConfig { width: 3, height: 2 };
    let mut idx = TileMapIndex::<PawnId>::new(cfg);
    let a = TileId::new(0, 0);
    let b = TileId::new(1, 0);
    idx.set(a, PawnId(1));
    assert_eq!(idx.get(a), Some(PawnId(1)));
    let mut prev = a;
    idx.move_id(Some(&mut prev), b, PawnId(1));
    assert_eq!(prev, b);
    assert_eq!(idx.get(a), None);
    assert_eq!(idx.get(b), Some(PawnId(1)));
    idx.remove(b, PawnId(1));
    assert_eq!(idx.get(b), None);
}

#[test]
fn tile_index_ignores_tiles_off_the_grid() {
    let cfg = GridConfig { width: 2, height: 2 };
    let mut idx = TileMapIndex::<PawnId>::new(cfg);
    idx.set(TileId::new(2, 0), PawnId(3));
    assert_eq!(idx.get(TileId::new(2, 0)), None);
    assert_eq!(idx.remove(TileId::new(1, 1), PawnId(3)), None);
}

#[test]
fn occupancy_invariants() {
    let cfg = GridConfig { width: 2, height: 2 };
    let mut occ = OccupancyMap::new(cfg);
    let t = TileId::new(0, 0);
    occ.occupy(t, Occupancy::pawn());
    assert!(occ.get(t).contains(Occupancy::pawn()));
    // Idempotent occupy
    occ.occupy(t, Occupancy::pawn());
    assert!(occ.get(t).contains(Occupancy::pawn()));
    // Vacate
    occ.vacate(t, Occupancy::pawn());
    assert!(!occ.get(t).contains(Occupancy::pawn()));
    // Idempotent vacate
    occ.vacate(t, Occupancy::pawn());
    assert!(!occ.get(t).contains(Occupancy::pawn()));
}

#[test]
fn occupancy_flags_are_independent() {
    let cfg = GridConfig { width: 2, height: 1 };
    let mut occ = OccupancyMap::new(cfg);
    let t = TileId::new(1, 0);
    occ.occupy(t, Occupancy::pawn().union(Occupancy::item()));
    occ.vacate(t, Occupancy::pawn());
    assert!(occ.get(t).contains(Occupancy::item()));
    assert!(!occ.get(t).contains(Occupancy::pawn()));
    assert_eq!(occ.get(t).bits(), 2);
    assert_eq!(occ.get(TileId::new(0, 0)).bits(), 0);
    // Off the grid nothing is recorded.
    occ.occupy(TileId::new(5, 5), Occupancy::building());
    assert_eq!(occ.get(TileId::new(5, 5)).bits(), 0);
}

#[test]
fn deterministic_path() {
    let cfg = GridConfig { width: 5, height: 5 };
    let mut walk = Grid2D::new(cfg, true);
    // wall column at x=1 except opening at y=4
    *walk.get_mut(TileId::new(1, 0)).unwrap() = false;
    *walk.get_mut(TileId::new(1, 1)).unwrap() = false;
    *walk.get_mut(TileId::new(1, 2)).unwrap() = false;
    *walk.get_mut(TileId::new(1, 3)).unwrap() = false;

    let start = TileId::new(0, 0);
    let goal = TileId::new(4, 4);
    let p1 = astar(&walk, start, goal).unwrap();
    let p2 = astar(&walk, start, goal).unwrap();
    assert_eq!(p1, p2);
    assert_eq!(p1.first().copied(), Some(start));
    assert_eq!(p1.last().copied(), Some(goal));
}

#[test]
fn astar_walks_only_walkable_neighbouring_tiles() {
    let cfg = GridConfig { width: 5, height: 5 };
    let mut walk = Grid2D::new(cfg, true);
    for y in 0..4 {
        walk.set(TileId::new(1, y), false);
    }
    let p = astar(&walk, TileId::new(0, 0), TileId::new(4, 0)).unwrap();
    for w in p.windows(2) {
        let dx = (w[0].x - w[1].x).abs();
        let dy = (w[0].y - w[1].y).abs();
        assert!(dx <= 1 && dy <= 1 && dx + dy > 0);
    }
    for t in &p {
        assert_eq!(walk.get(*t), Some(&true));
    }
    // The wall forces the walk through the opening at (1, 4).
    assert!(p.contains(&TileId::new(1, 4)));
}

#[test]
fn astar_without_a_way_through() {
    let cfg = GridConfig { width: 3, height: 3 };
    let mut walk = Grid2D::new(cfg, true);
    for y in 0..3 {
        walk.set(TileId::new(1, y), false);
    }
    assert_eq!(astar(&walk, TileId::new(0, 0), TileId::new(2, 2)), None);
    assert_eq!(astar(&walk, TileId::new(0, 0), TileId::new(9, 9)), None);
    assert_eq!(astar(&walk, TileId::new(0, 0), TileId::new(0, 0)), Some(vec![TileId::new(0, 0)]));
}

#[test]
fn tests_test_manhattan_path() {
    let start = TileId::new(0, 0);
    let end = TileId::new(3, 4);
    let path = manhattan_path(start, end);
    assert_eq!(
        path,
        VecDeque::from_iter([
            TileId::new(1, 0),
            TileId::new(2, 0),
            TileId::new(3, 0),
            TileId::new(3, 1),
            TileId::new(3, 2),
            TileId::new(3, 3),
            TileId::new(3, 4)
        ])
    );
}

#[test]
fn toils_test_manhattan_path() {
    let start = TileId::new(0, 0);
    let end = TileId::new(3, 4);
    let path = manhattan_path(start, end);
    assert_eq!(
        path,
        VecDeque::from_iter([
            TileId::new(1, 0),
            TileId::new(2, 0),
            TileId::new(3, 0),
            TileId::new(3, 1),
            TileId::new(3, 2),
            TileId::new(3, 3),
            TileId::new(3, 4)
        ])
    );
}

#[test]
fn manhattan_distance_and_paths() {
    assert_eq!(manhattan(TileId::new(-2, 5), TileId::new(3, 1)), 9);
    assert_eq!(manhattan_path(TileId::new(2, 2), TileId::new(2, 2)).len(), 0);
    let back = manhattan_path(TileId::new(3, 1), TileId::new(1, 0));
    assert_eq!(back, VecDeque::from_iter([TileId::new(2, 1), TileId::new(1, 1), TileId::new(1, 0)]));
    // Stopping next to the target.
    let adj = manhattan_path_adj(TileId::new(0, 0), TileId::new(2, 0));
    assert_eq!(adj, VecDeque::from_iter([TileId::new(1, 0)]));
}

#[test]
fn writes_through_get_mut_land_in_their_cell() {
    let cfg = GridConfig { width: 3, height: 2 };
    let mut g: Grid2D<u8> = Grid2D::new(cfg, 0);
    *g.get_mut(TileId::new(2, 1)).unwrap() = 9;
    assert_eq!(g.get(TileId::new(2, 1)), Some(&9));
    assert_eq!(g.data, vec![0, 0, 0, 0, 0, 9]);
    assert!(g.get_mut(TileId::new(3, 0)).is_none());
    assert!(g.get_mut(TileId::new(0, -1)).is_none());
}

#[test]
fn astar_takes_the_diagonal_on_an_open_grid() {
    let walk = Grid2D::new(GridConfig { width: 3, height: 3 }, true);
    assert_eq!(
        astar(&walk, TileId::new(0, 0), TileId::new(2, 2)),
        Some(vec![TileId::new(0, 0), TileId::new(1, 1), TileId::new(2, 2)])
    );
    // The start itself need not be walkable; every later tile must be.
    let mut blocked_start = Grid2D::new(GridConfig { width: 2, height: 1 }, true);
    blocked_start.set(TileId::new(0, 0), false);
    assert_eq!(
        astar(&blocked_start, TileId::new(0, 0), TileId::new(1, 0)),
        Some(vec![TileId::new(0, 0), TileId::new(1, 0)])
    );
}
