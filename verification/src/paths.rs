//! Manhattan distances and straight-line (x first, then y) paths.
use vstd::prelude::*;
use std::collections::VecDeque;
use crate::grid::TileId;

verus! {

pub open spec fn abs_diff(a: int, b: int) -> int {
    if a >= b {
        a - b
    } else {
        b - a
    }
}

/// Manhattan distance between two tiles.
pub open spec fn manhattan_dist(a: TileId, b: TileId) -> int {
    abs_diff(a.x as int, b.x as int) + abs_diff(a.y as int, b.y as int)
}

/// The distance fits the `i32` arithmetic that computes it.
pub open spec fn manhattan_fits(a: TileId, b: TileId) -> bool {
    manhattan_dist(a, b) <= i32::MAX
}

/// `a` moved `k` steps toward `b`.
pub open spec fn step_toward(a: int, b: int, k: int) -> int {
    if b >= a {
        a + k
    } else {
        a - k
    }
}

/// The `i`-th tile (from 0) of the path from `s` to `e` that first walks along x,
/// then along y, one tile per step, excluding `s` and including `e`.
pub open spec fn path_tile(s: TileId, e: TileId, i: int) -> TileId {
    let nx = abs_diff(s.x as int, e.x as int);
    if i < nx {
        TileId { x: step_toward(s.x as int, e.x as int, i + 1) as i32, y: s.y }
    } else {
        TileId { x: e.x, y: step_toward(s.y as int, e.y as int, i + 1 - nx) as i32 }
    }
}

/// The whole path from `s` to `e`, as `manhattan_path` builds it.
pub open spec fn path_spec(s: TileId, e: TileId) -> Seq<TileId> {
    Seq::new(manhattan_dist(s, e) as nat, |i: int| path_tile(s, e, i))
}

/// The path to a tile next to `e`: `path_spec` without its last tile, or, when
/// `s == e`, the single tile to the right of `s`.
pub open spec fn adj_path_spec(s: TileId, e: TileId) -> Seq<TileId> {
    if s == e {
        seq![TileId { x: (s.x + 1) as i32, y: s.y }]
    } else {
        path_spec(s, e).drop_last()
    }
}

/// Manhattan distance between two tiles.
pub fn manhattan(a: TileId, b: TileId) -> (r: u32)
    requires
        manhattan_fits(a, b),
    ensures
        r == manhattan_dist(a, b),
{
    let dx: i64 = if a.x >= b.x { a.x as i64 - b.x as i64 } else { b.x as i64 - a.x as i64 };
    let dy: i64 = if a.y >= b.y { a.y as i64 - b.y as i64 } else { b.y as i64 - a.y as i64 };
    (dx + dy) as u32
}

/// Manhattan distance between two tiles, in a type wide enough for any pair.
pub fn manhattan_wide(a: TileId, b: TileId) -> (r: i64)
    ensures
        r == manhattan_dist(a, b),
{
    let dx: i64 = if a.x >= b.x { a.x as i64 - b.x as i64 } else { b.x as i64 - a.x as i64 };
    let dy: i64 = if a.y >= b.y { a.y as i64 - b.y as i64 } else { b.y as i64 - a.y as i64 };
    dx + dy
}

/// The tiles from `start` (excluded) to `end` (included), first along x, then along y.
pub fn manhattan_path(start: TileId, end: TileId) -> (path: VecDeque<TileId>)
    ensures
        path@ == path_spec(start, end),
{
    let mut path: VecDeque<TileId> = VecDeque::new();
    let dx: i32 = if end.x > start.x { 1 } else if end.x < start.x { -1 } else { 0 };
    let dy: i32 = if end.y > start.y { 1 } else if end.y < start.y { -1 } else { 0 };
    proof {
        reveal_with_fuel(path_tile, 1);
    }
    let ghost nx = abs_diff(start.x as int, end.x as int);
    let ghost ny = abs_diff(start.y as int, end.y as int);
    let mut x = start.x;
    let y0 = start.y;
    while x != end.x
        invariant
            dx == (if end.x > start.x { 1int } else if end.x < start.x { -1int } else { 0int }),
            nx == abs_diff(start.x as int, end.x as int),
            y0 == start.y,
            path@.len() <= nx,
            x == step_toward(start.x as int, end.x as int, path@.len() as int),
            forall|i: int| 0 <= i < path@.len() ==> path@[i] == path_tile(start, end, i),
        decreases abs_diff(x as int, end.x as int),
    {
        x = x + dx;
        let ghost before = path@;
        path.push_back(TileId::new(x, y0));
        assert(path@.len() - 1 < nx);
        assert(path@[path@.len() - 1] == path_tile(start, end, path@.len() - 1));
        assert forall|i: int| 0 <= i < path@.len() implies path@[i] == path_tile(start, end, i) by {
            if i < before.len() {
                assert(path@[i] == before[i]);
            }
        }
    }
    let mut y = start.y;
    while y != end.y
        invariant
            x == end.x,
            dy == (if end.y > start.y { 1int } else if end.y < start.y { -1int } else { 0int }),
            nx == abs_diff(start.x as int, end.x as int),
            ny == abs_diff(start.y as int, end.y as int),
            nx <= path@.len() <= nx + ny,
            y == step_toward(start.y as int, end.y as int, path@.len() - nx),
            forall|i: int| 0 <= i < path@.len() ==> path@[i] == path_tile(start, end, i),
        decreases abs_diff(y as int, end.y as int),
    {
        y = y + dy;
        let ghost before = path@;
        path.push_back(TileId::new(x, y));
        assert forall|i: int| 0 <= i < path@.len() implies path@[i] == path_tile(start, end, i) by {
            if i < before.len() {
                assert(path@[i] == before[i]);
            }
        }
    }
    assert(path@ =~= path_spec(start, end));
    path
}

/// The tiles from `start` to a tile next to `end`: the Manhattan path without
/// its last tile, or the tile to the right of `start` when the two coincide.
pub fn manhattan_path_adj(start: TileId, end: TileId) -> (path: VecDeque<TileId>)
    requires
        start == end ==> start.x < i32::MAX,
    ensures
        path@ == adj_path_spec(start, end),
{
    if start == end {
        let mut p = VecDeque::new();
        p.push_back(TileId::new(start.x + 1, start.y));
        assert(p@ =~= adj_path_spec(start, end));
        return p;
    }
    let mut path = manhattan_path(start, end);
    proof {
        if manhattan_dist(start, end) == 0 {
            assert(start.x == end.x && start.y == end.y);
        }
    }
    path.pop_back();
    assert(path@ =~= adj_path_spec(start, end));
    path
}

/// Consecutive tiles of the path (and `s` before the first) are one step apart, and
/// the path ends at `e`.
pub proof fn law_manhattan_path_steps(s: TileId, e: TileId)
    ensures
        path_spec(s, e).len() == manhattan_dist(s, e),
        path_spec(s, e).len() > 0 ==> path_spec(s, e).last() == e,
        path_spec(s, e).len() > 0 ==> manhattan_dist(s, path_spec(s, e)[0]) == 1,
        forall|i: int|
            1 <= i < path_spec(s, e).len() ==> manhattan_dist(
                path_spec(s, e)[i - 1],
                #[trigger] path_spec(s, e)[i],
            ) == 1,
{
    let p = path_spec(s, e);
    let nx = abs_diff(s.x as int, e.x as int);
    let ny = abs_diff(s.y as int, e.y as int);
    if p.len() > 0 {
        let k = p.len() - 1;
        if k < nx {
            assert(ny == 0);
        }
        assert(p[0] == path_tile(s, e, 0));
    }
    assert forall|i: int|
        1 <= i < p.len() implies manhattan_dist(p[i - 1], #[trigger] p[i]) == 1 by {
        assert(p[i] == path_tile(s, e, i));
        assert(p[i - 1] == path_tile(s, e, i - 1));
    }
}

} // verus!
