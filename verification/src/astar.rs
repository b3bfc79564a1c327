//! 8-way deterministic A* over a walkability grid.
use vstd::prelude::*;
use vstd::set_lib::*;
use crate::grid::{Grid2D, GridConfig, TileId};

verus! {

/// Two distinct tiles that touch by side or by corner.
pub open spec fn adjacent8(a: TileId, b: TileId) -> bool {
    a != b && -1 <= a.x - b.x <= 1 && -1 <= a.y - b.y <= 1
}

/// `path` leads from `start` to `goal` inside the grid, each step to one of the
/// eight neighbours, and every tile after the first is walkable.
pub open spec fn is_walk(grid: Grid2D<bool>, path: Seq<TileId>, start: TileId, goal: TileId) -> bool {
    &&& path.len() >= 1
    &&& path[0] == start
    &&& path.last() == goal
    &&& forall|i: int| 0 <= i < path.len() ==> grid.cfg.contains(#[trigger] path[i])
    &&& forall|i: int| 1 <= i < path.len() ==> grid.at(#[trigger] path[i])
    &&& forall|i: int| 1 <= i < path.len() ==> adjacent8(path[i - 1], #[trigger] path[i])
}

#[derive(Copy, Clone)]
struct Node {
    tile: TileId,
    g: u32,
    h: u32,
}

/// Search order: lower `g + h` first, then lower `h`, then lower `y`, then lower `x`.
spec fn node_before(a: Node, b: Node) -> bool {
    let fa = a.g + a.h;
    let fb = b.g + b.h;
    fa < fb || (fa == fb && (a.h < b.h || (a.h == b.h && (a.tile.y < b.tile.y || (a.tile.y
        == b.tile.y && a.tile.x < b.tile.x)))))
}

fn before(a: &Node, b: &Node) -> (r: bool)
    requires
        a.g + a.h <= u32::MAX,
        b.g + b.h <= u32::MAX,
    ensures
        r == node_before(*a, *b),
{
    let fa = a.g + a.h;
    let fb = b.g + b.h;
    if fa != fb {
        return fa < fb;
    }
    if a.h != b.h {
        return a.h < b.h;
    }
    if a.tile.y != b.tile.y {
        return a.tile.y < b.tile.y;
    }
    a.tile.x < b.tile.x
}

/// Room in `u32` for every score and estimate on a grid of this size:
/// fourteen per tile, and per row and column.
pub open spec fn cost_room(cfg: GridConfig) -> bool {
    14 * (cfg.cells() + cfg.width + cfg.height) <= u32::MAX
}

/// A bound on the distance estimate between two tiles of the grid.
spec fn h_cap(cfg: GridConfig) -> int {
    14 * (cfg.width + cfg.height)
}

/// Octile distance estimate: 14 per diagonal step, 10 per straight step.
pub open spec fn octile(a: TileId, b: TileId) -> int {
    let dx = if a.x >= b.x { a.x - b.x } else { b.x - a.x };
    let dy = if a.y >= b.y { a.y - b.y } else { b.y - a.y };
    let mn = if dx <= dy { dx } else { dy };
    let mx = if dx <= dy { dy } else { dx };
    14 * mn + 10 * (mx - mn)
}

/// The cost of one step: 10 along an axis, 14 diagonally.
pub open spec fn step_cost_of(a: TileId, b: TileId) -> int {
    if a.x == b.x || a.y == b.y {
        10
    } else {
        14
    }
}

/// The cost of a walk: the sum of its step costs.
pub open spec fn walk_cost(p: Seq<TileId>) -> int
    decreases p.len(),
{
    if p.len() <= 1 {
        0
    } else {
        walk_cost(p.drop_last()) + step_cost_of(p[p.len() - 2], p.last())
    }
}

/// The octile estimate never drops by more than the cost of one step.
proof fn lemma_octile_step(a: TileId, b: TileId, goal: TileId)
    requires
        adjacent8(a, b),
    ensures
        octile(a, goal) <= step_cost_of(a, b) + octile(b, goal),
{
}

/// Along a walk to the goal, the cost so far plus the estimate from where the
/// walk is never exceeds the cost of the whole walk.
proof fn lemma_octile_admissible(grid: Grid2D<bool>, w: Seq<TileId>, start: TileId, goal: TileId, i: int)
    requires
        is_walk(grid, w, start, goal),
        0 <= i < w.len(),
    ensures
        walk_cost(w.take(i + 1)) + octile(w[i], goal) <= walk_cost(w),
    decreases w.len() - i,
{
    if i == w.len() - 1 {
        assert(w.take(i + 1) =~= w);
    } else {
        lemma_octile_admissible(grid, w, start, goal, i + 1);
        assert(w.take(i + 2).drop_last() =~= w.take(i + 1));
        assert(adjacent8(w[i], w[i + 1]));
        lemma_octile_step(w[i], w[i + 1], goal);
    }
}

/// The cost of a walk, split after its first step.
proof fn lemma_cost_front(p: Seq<TileId>)
    requires
        p.len() >= 2,
    ensures
        walk_cost(p) == step_cost_of(p[0], p[1]) + walk_cost(p.drop_first()),
    decreases p.len(),
{
    let q = p.drop_first();
    if p.len() > 2 {
        lemma_cost_front(p.drop_last());
        assert(p.drop_last().drop_first() =~= q.drop_last());
        assert(q[q.len() - 2] == p[p.len() - 2]);
        assert(q.last() == p.last());
        assert(walk_cost(q) == walk_cost(q.drop_last()) + step_cost_of(q[q.len() - 2], q.last()));
    } else {
        assert(walk_cost(q) == 0);
        assert(walk_cost(p.drop_last()) == 0);
    }
}

/// A walk and the same tiles in the opposite order cost the same.
proof fn lemma_cost_reversed(a: Seq<TileId>, b: Seq<TileId>)
    requires
        a.len() == b.len(),
        forall|i: int| 0 <= i < a.len() ==> #[trigger] b[i] == a[a.len() - 1 - i],
    ensures
        walk_cost(a) == walk_cost(b),
    decreases a.len(),
{
    if a.len() >= 2 {
        let ra = a.drop_last();
        let rb = b.drop_first();
        assert forall|i: int| 0 <= i < ra.len() implies #[trigger] rb[i] == ra[ra.len() - 1 - i] by {
            assert(rb[i] == b[i + 1]);
        }
        lemma_cost_reversed(ra, rb);
        lemma_cost_front(b);
        assert(b[0] == a[a.len() - 1]);
        assert(b[1] == a[a.len() - 2]);
    }
}

fn heuristic(a: TileId, b: TileId, cfg: GridConfig) -> (r: u32)
    requires
        cfg.contains(a),
        cfg.contains(b),
        cost_room(cfg),
    ensures
        r == octile(a, b),
        r <= h_cap(cfg),
{
    proof {
        assert(cfg.width <= cfg.cells() && cfg.height <= cfg.cells()) by (nonlinear_arith)
            requires
                cfg.width >= 1,
                cfg.height >= 1,
        ;
    }
    let dx: u32 = if a.x >= b.x { (a.x - b.x) as u32 } else { (b.x - a.x) as u32 };
    let dy: u32 = if a.y >= b.y { (a.y - b.y) as u32 } else { (b.y - a.y) as u32 };
    let mn = if dx <= dy { dx } else { dy };
    let mx = if dx <= dy { dy } else { dx };
    14 * mn + 10 * (mx - mn)
}

fn step_cost(a: TileId, b: TileId) -> (r: u32)
    ensures
        r == if a.x == b.x || a.y == b.y { 10u32 } else { 14u32 },
{
    if a.x == b.x || a.y == b.y {
        10
    } else {
        14
    }
}

/// The in-bounds neighbours of `tile`, row by row from `y - 1` and, within a row,
/// from `x - 1`.
fn neighbors(cfg: GridConfig, tile: TileId) -> (out: Vec<TileId>)
    requires
        cfg.contains(tile),
        cost_room(cfg),
    ensures
        forall|i: int|
            0 <= i < out@.len() ==> cfg.contains(#[trigger] out@[i]) && adjacent8(tile, out@[i]),
        forall|t: TileId| cfg.contains(t) && adjacent8(tile, t) ==> out@.contains(t),
        out@ == nbrs_upto(cfg, tile, 9),
{
    proof {
        assert(cfg.width <= cfg.cells() && cfg.height <= cfg.cells()) by (nonlinear_arith)
            requires
                cfg.width >= 1,
                cfg.height >= 1,
        ;
    }
    let mut out: Vec<TileId> = Vec::new();
    let mut dy: i32 = -1;
    while dy <= 1
        invariant
            -1 <= dy <= 2,
            cfg.contains(tile),
            cfg.width < 0x4000_0000,
            cfg.height < 0x4000_0000,
            forall|i: int|
                0 <= i < out@.len() ==> cfg.contains(#[trigger] out@[i]) && adjacent8(
                    tile,
                    out@[i],
                ),
            forall|t: TileId| cfg.contains(t) && adjacent8(tile, t) && t.y - tile.y < dy ==> out@.contains(t),
            out@ == nbrs_upto(cfg, tile, 3 * (dy + 1)),
        decreases 2 - dy,
    {
        let mut dx: i32 = -1;
        while dx <= 1
            invariant
                -1 <= dx <= 2,
                -1 <= dy <= 1,
                cfg.contains(tile),
                cfg.width < 0x4000_0000,
                cfg.height < 0x4000_0000,
                forall|i: int|
                    0 <= i < out@.len() ==> cfg.contains(#[trigger] out@[i]) && adjacent8(
                        tile,
                        out@[i],
                    ),
                forall|t: TileId|
                    cfg.contains(t) && adjacent8(tile, t) && (t.y - tile.y < dy || (t.y - tile.y == dy && t.x
                        - tile.x < dx)) ==> out@.contains(t),
                out@ == nbrs_upto(cfg, tile, 3 * (dy + 1) + (dx + 1)),
            decreases 2 - dx,
        {
            let ghost before = out@;
            proof {
                let i = 3 * (dy + 1) + (dx + 1);
                assert(i % 3 - 1 == dx && i / 3 - 1 == dy) by (nonlinear_arith)
                    requires
                        i == 3 * (dy + 1) + (dx + 1),
                        -1 <= dx <= 1,
                        -1 <= dy <= 1,
                ;
                assert((i != 4) == !(dx == 0 && dy == 0));
            }
            if !(dx == 0 && dy == 0) {
                let n = TileId::new(tile.x + dx, tile.y + dy);
                if cfg.in_bounds(n) {
                    out.push(n);
                    proof {
                        assert(out@[out@.len() - 1] == n);
                    }
                }
            }
            proof {
                assert forall|t: TileId|
                    cfg.contains(t) && adjacent8(tile, t) && (t.y - tile.y < dy || (t.y - tile.y == dy && t.x
                        - tile.x < dx + 1)) implies out@.contains(t) by {
                    if t.y - tile.y < dy || (t.y - tile.y == dy && t.x - tile.x < dx) {
                        assert(before.contains(t));
                        let k = choose|k: int| 0 <= k < before.len() && before[k] == t;
                        assert(out@[k] == t);
                    } else {
                        assert(t.x == tile.x + dx && t.y == tile.y + dy);
                        assert(out@[out@.len() - 1] == t);
                    }
                }
            }
            dx = dx + 1;
        }
        dy = dy + 1;
    }
    out
}

/// The recorded parent of `t`, if any, is an in-bounds neighbour whose score
/// plus the step from it is at most the score of `t`, and `t` itself is
/// walkable and scored.
spec fn parent_ok(grid: Grid2D<bool>, g: Seq<u32>, came: Seq<Option<TileId>>, t: TileId) -> bool {
    came[grid.cfg.flat(t)] matches Some(p) ==> {
        &&& grid.cfg.contains(p)
        &&& adjacent8(p, t)
        &&& grid.at(t)
        &&& g[grid.cfg.flat(t)] != u32::MAX
        &&& g[grid.cfg.flat(p)] + step_cost_of(p, t) <= g[grid.cfg.flat(t)]
    }
}

/// The only scored tile without a parent is the start.
spec fn root_ok(cfg: GridConfig, g: Seq<u32>, came: Seq<Option<TileId>>, start: TileId, t: TileId) -> bool {
    came[cfg.flat(t)] is None && g[cfg.flat(t)] != u32::MAX ==> t == start
}

proof fn lemma_relax(
    grid: Grid2D<bool>,
    g: Seq<u32>,
    came: Seq<Option<TileId>>,
    cur: TileId,
    nb: TileId,
    tent: u32,
    start: TileId,
)
    requires
        grid.wf(),
        g.len() == grid.cfg.cells(),
        came.len() == grid.cfg.cells(),
        grid.cfg.contains(cur),
        grid.cfg.contains(nb),
        grid.cfg.contains(start),
        adjacent8(cur, nb),
        grid.at(nb),
        tent == g[grid.cfg.flat(cur)] + step_cost_of(cur, nb),
        tent < g[grid.cfg.flat(nb)],
        g[grid.cfg.flat(start)] == 0,
        forall|t: TileId| grid.cfg.contains(t) ==> #[trigger] parent_ok(grid, g, came, t),
        forall|t: TileId| grid.cfg.contains(t) ==> #[trigger] root_ok(grid.cfg, g, came, start, t),
    ensures
        forall|t: TileId|
            grid.cfg.contains(t) ==> #[trigger] parent_ok(
                grid,
                g.update(grid.cfg.flat(nb), tent),
                came.update(grid.cfg.flat(nb), Some(cur)),
                t,
            ),
        forall|t: TileId|
            grid.cfg.contains(t) ==> #[trigger] root_ok(
                grid.cfg,
                g.update(grid.cfg.flat(nb), tent),
                came.update(grid.cfg.flat(nb), Some(cur)),
                start,
                t,
            ),
{
    let cfg = grid.cfg;
    let ni = cfg.flat(nb);
    let g2 = g.update(ni, tent);
    let c2 = came.update(ni, Some(cur));
    crate::grid::lemma_flat_in_range(cfg, nb);
    crate::grid::lemma_flat_in_range(cfg, cur);
    crate::grid::lemma_flat_injective(cfg, cur, nb);
    assert forall|t: TileId| cfg.contains(t) implies #[trigger] parent_ok(grid, g2, c2, t) by {
        crate::grid::lemma_flat_in_range(cfg, t);
        if t == nb {
            assert(c2[cfg.flat(t)] == Some(cur));
            assert(g2[cfg.flat(cur)] == g[cfg.flat(cur)]);
        } else {
            crate::grid::lemma_flat_injective(cfg, t, nb);
            assert(parent_ok(grid, g, came, t));
            assert(c2[cfg.flat(t)] == came[cfg.flat(t)]);
            assert(g2[cfg.flat(t)] == g[cfg.flat(t)]);
            if let Some(p) = came[cfg.flat(t)] {
                crate::grid::lemma_flat_in_range(cfg, p);
                if p != nb {
                    crate::grid::lemma_flat_injective(cfg, p, nb);
                    assert(g2[cfg.flat(p)] == g[cfg.flat(p)]);
                } else {
                    assert(g2[cfg.flat(p)] == tent);
                }
            }
        }
    }
    assert forall|t: TileId| cfg.contains(t) implies #[trigger] root_ok(cfg, g2, c2, start, t) by {
        crate::grid::lemma_flat_in_range(cfg, t);
        if t != nb {
            crate::grid::lemma_flat_injective(cfg, t, nb);
            assert(root_ok(cfg, g, came, start, t));
        }
    }
}

/// Relaxing `nb` from `cur` (its score becomes `tent`, its parent `cur`, and the
/// node `node` for it is queued) keeps what the search maintains.
proof fn lemma_relax_keeps(
    grid: Grid2D<bool>,
    g: Seq<u32>,
    came: Seq<Option<TileId>>,
    open: Seq<Node>,
    cur: TileId,
    nb: TileId,
    tent: u32,
    node: Node,
    start: TileId,
    goal: TileId,
    n: int,
)
    requires
        grid.wf(),
        n == grid.cfg.cells(),
        g.len() == n,
        came.len() == n,
        grid.cfg.contains(cur),
        grid.cfg.contains(nb),
        grid.cfg.contains(start),
        grid.cfg.contains(goal),
        adjacent8(cur, nb),
        grid.at(nb),
        cur != goal,
        tent == g[grid.cfg.flat(cur)] + step_cost_of(cur, nb),
        tent < g[grid.cfg.flat(nb)],
        tent <= 14 * n,
        node.tile == nb,
        node.g == tent,
        node.h == octile(nb, goal),
        node.h <= h_cap(grid.cfg),
        g[grid.cfg.flat(start)] == 0,
        forall|t: TileId| grid.cfg.contains(t) ==> #[trigger] parent_ok(grid, g, came, t),
        forall|t: TileId| grid.cfg.contains(t) ==> #[trigger] root_ok(grid.cfg, g, came, start, t),
        forall|t: TileId| grid.cfg.contains(t) && t != cur ==> #[trigger] covered(grid, g, open, t),
        g[grid.cfg.flat(goal)] != u32::MAX ==> open_has(open, goal),
        forall|k: int|
            0 <= k < open.len() ==> grid.cfg.contains(#[trigger] open[k].tile) && g[grid.cfg.flat(open[k].tile)]
                != u32::MAX && open[k].g <= 14 * n && open[k].h <= h_cap(grid.cfg),
        forall|k: int|
            0 <= k < open.len() ==> #[trigger] open[k].h == octile(open[k].tile, goal) && open[k].g >= g[grid.cfg.flat(
                open[k].tile,
            )],
    ensures
        ({
            let g2 = g.update(grid.cfg.flat(nb), tent);
            let came2 = came.update(grid.cfg.flat(nb), Some(cur));
            let open2 = open.push(node);
            &&& g2[grid.cfg.flat(start)] == 0
            &&& forall|t: TileId| grid.cfg.contains(t) ==> #[trigger] parent_ok(grid, g2, came2, t)
            &&& forall|t: TileId| grid.cfg.contains(t) ==> #[trigger] root_ok(grid.cfg, g2, came2, start, t)
            &&& forall|t: TileId| grid.cfg.contains(t) && t != cur ==> #[trigger] covered(grid, g2, open2, t)
            &&& g2[grid.cfg.flat(goal)] != u32::MAX ==> open_has(open2, goal)
            &&& forall|k: int|
                0 <= k < open2.len() ==> grid.cfg.contains(#[trigger] open2[k].tile) && g2[grid.cfg.flat(
                    open2[k].tile,
                )] != u32::MAX && open2[k].g <= 14 * n && open2[k].h <= h_cap(grid.cfg)
            &&& forall|k: int|
                0 <= k < open2.len() ==> #[trigger] open2[k].h == octile(open2[k].tile, goal) && open2[k].g
                    >= g2[grid.cfg.flat(open2[k].tile)]
        }),
{
    let cfg = grid.cfg;
    let ni = cfg.flat(nb);
    let g2 = g.update(ni, tent);
    let came2 = came.update(ni, Some(cur));
    let open2 = open.push(node);
    crate::grid::lemma_flat_in_range(cfg, nb);
    crate::grid::lemma_flat_in_range(cfg, cur);
    crate::grid::lemma_flat_in_range(cfg, start);
    crate::grid::lemma_flat_in_range(cfg, goal);
    crate::grid::lemma_flat_injective(cfg, cur, nb);
    if start != nb {
        crate::grid::lemma_flat_injective(cfg, start, nb);
    }
    lemma_relax(grid, g, came, cur, nb, tent, start);
    assert(open2[open2.len() - 1] == node);
    assert forall|t: TileId| open_has(open, t) implies open_has(open2, t) by {
        let k = choose|k: int| 0 <= k < open.len() && open[k].tile == t;
        assert(open2[k] == open[k]);
    }
    assert forall|t: TileId, v: u32| open_entry(open, t, v) implies open_entry(open2, t, v) by {
        let k = choose|k: int| 0 <= k < open.len() && open[k].tile == t && open[k].g == v;
        assert(open2[k] == open[k]);
    }
    assert(open_entry(open2, nb, tent));
    assert forall|t: TileId| cfg.contains(t) && t != cur implies #[trigger] covered(grid, g2, open2, t) by {
        crate::grid::lemma_flat_in_range(cfg, t);
        if t != nb {
            crate::grid::lemma_flat_injective(cfg, t, nb);
            assert(g2[cfg.flat(t)] == g[cfg.flat(t)]);
            assert(covered(grid, g, open, t));
            if settled(grid, g, t) {
                assert forall|m: TileId|
                    cfg.contains(m) && adjacent8(t, m) && grid.at(m) implies #[trigger] g2[cfg.flat(m)]
                    <= g2[cfg.flat(t)] + step_cost_of(t, m) by {
                    crate::grid::lemma_flat_in_range(cfg, m);
                    assert(g[cfg.flat(m)] <= g[cfg.flat(t)] + step_cost_of(t, m));
                }
            }
        }
    }
    if goal != nb {
        crate::grid::lemma_flat_injective(cfg, goal, nb);
    }
    assert forall|k: int|
        0 <= k < open2.len() implies grid.cfg.contains(#[trigger] open2[k].tile) && g2[grid.cfg.flat(open2[k].tile)]
            != u32::MAX && open2[k].g <= 14 * n && open2[k].h <= h_cap(grid.cfg) by {
        if k < open.len() {
            assert(open2[k] == open[k]);
            crate::grid::lemma_flat_in_range(cfg, open[k].tile);
        }
    }
    assert forall|k: int|
        0 <= k < open2.len() implies #[trigger] open2[k].h == octile(open2[k].tile, goal) && open2[k].g
            >= g2[grid.cfg.flat(open2[k].tile)] by {
        if k < open.len() {
            assert(open2[k] == open[k]);
            crate::grid::lemma_flat_in_range(cfg, open[k].tile);
        }
    }
}

/// Sum of the entries, as a mathematical integer.
spec fn total(s: Seq<u32>) -> int
    decreases s.len(),
{
    if s.len() == 0 {
        0
    } else {
        total(s.drop_last()) + s.last()
    }
}

proof fn lemma_total_update(s: Seq<u32>, i: int, v: u32)
    requires
        0 <= i < s.len(),
    ensures
        total(s.update(i, v)) == total(s) - s[i] + v,
    decreases s.len(),
{
    if i == s.len() - 1 {
        assert(s.update(i, v).drop_last() =~= s.drop_last());
    } else {
        lemma_total_update(s.drop_last(), i, v);
        assert(s.update(i, v).drop_last() =~= s.drop_last().update(i, v));
    }
}

proof fn lemma_total_nonneg(s: Seq<u32>)
    ensures
        total(s) >= 0,
    decreases s.len(),
{
    if s.len() > 0 {
        lemma_total_nonneg(s.drop_last());
    }
}

/// Flat positions whose score is set.
spec fn reached(g: Seq<u32>) -> Set<int> {
    Set::new(|i: int| 0 <= i < g.len() && g[i] != u32::MAX)
}

proof fn lemma_reached_bound(g: Seq<u32>)
    ensures
        reached(g).finite(),
        reached(g).len() <= g.len(),
{
    let full = set_int_range(0, g.len() as int);
    assert(reached(g).subset_of(full));
    lemma_int_range(0, g.len() as int);
    lemma_len_subset(reached(g), full);
}

proof fn lemma_reached_insert(g: Seq<u32>, i: int, v: u32)
    requires
        0 <= i < g.len(),
        g[i] == u32::MAX,
        v != u32::MAX,
    ensures
        reached(g.update(i, v)) == reached(g).insert(i),
{
    assert(reached(g.update(i, v)) =~= reached(g).insert(i));
}

proof fn lemma_reached_same(g: Seq<u32>, i: int, v: u32)
    requires
        0 <= i < g.len(),
        g[i] != u32::MAX,
        v != u32::MAX,
    ensures
        reached(g.update(i, v)) == reached(g),
{
    assert(reached(g.update(i, v)) =~= reached(g));
}

/// Some node in `open` is for tile `t`.
spec fn open_has(open: Seq<Node>, t: TileId) -> bool {
    exists|k: int| 0 <= k < open.len() && open[k].tile == t
}

/// Some node in `open` is for tile `t` with score `v`.
spec fn open_entry(open: Seq<Node>, t: TileId, v: u32) -> bool {
    exists|k: int| 0 <= k < open.len() && open[k].tile == t && open[k].g == v
}

/// Every walkable neighbour of `t` has a score at most that of `t` plus the
/// step to it.
spec fn settled(grid: Grid2D<bool>, g: Seq<u32>, t: TileId) -> bool {
    forall|m: TileId|
        grid.cfg.contains(m) && adjacent8(t, m) && grid.at(m) ==> #[trigger] g[grid.cfg.flat(m)] <= g[grid.cfg.flat(t)]
            + step_cost_of(t, m)
}

/// A scored tile is still to be expanded with its score, or its walkable
/// neighbours are scored from it.
spec fn covered(grid: Grid2D<bool>, g: Seq<u32>, open: Seq<Node>, t: TileId) -> bool {
    g[grid.cfg.flat(t)] != u32::MAX ==> open_entry(open, t, g[grid.cfg.flat(t)]) || settled(grid, g, t)
}

/// Scores, when set, stay far below `u32::MAX`.
spec fn scores_small(g: Seq<u32>) -> bool {
    forall|i: int| 0 <= i < g.len() && g[i] != u32::MAX ==> #[trigger] g[i] <= 4_294_967_280
}

/// Along a walk from a scored start through tiles whose walkable neighbours
/// are all scored, every tile is scored.
proof fn lemma_walk_scored(grid: Grid2D<bool>, g: Seq<u32>, p: Seq<TileId>, start: TileId, goal: TileId, i: int)
    requires
        is_walk(grid, p, start, goal),
        0 <= i < p.len(),
        g[grid.cfg.flat(start)] != u32::MAX,
        grid.wf(),
        g.len() == grid.cfg.cells(),
        scores_small(g),
        forall|t: TileId| grid.cfg.contains(t) && g[grid.cfg.flat(t)] != u32::MAX ==> #[trigger] settled(grid, g, t),
    ensures
        g[grid.cfg.flat(p[i])] != u32::MAX,
    decreases i,
{
    if i > 0 {
        lemma_walk_scored(grid, g, p, start, goal, i - 1);
        assert(grid.cfg.contains(p[i - 1]));
        assert(settled(grid, g, p[i - 1]));
        assert(grid.cfg.contains(p[i]));
        assert(grid.at(p[i]));
        assert(adjacent8(p[i - 1], p[i]));
        crate::grid::lemma_flat_in_range(grid.cfg, p[i - 1]);
        assert(g[grid.cfg.flat(p[i - 1])] <= 4_294_967_280);
    }
}

/// When nothing is left to expand and the goal has no score, no walk reaches it.
proof fn lemma_no_walk(grid: Grid2D<bool>, g: Seq<u32>, start: TileId, goal: TileId)
    requires
        grid.cfg.contains(start),
        grid.cfg.contains(goal),
        g[grid.cfg.flat(start)] != u32::MAX,
        g[grid.cfg.flat(goal)] == u32::MAX,
        grid.wf(),
        g.len() == grid.cfg.cells(),
        scores_small(g),
        forall|t: TileId| grid.cfg.contains(t) ==> #[trigger] covered(grid, g, Seq::<Node>::empty(), t),
    ensures
        forall|p: Seq<TileId>| !is_walk(grid, p, start, goal),
{
    assert forall|t: TileId| grid.cfg.contains(t) && g[grid.cfg.flat(t)] != u32::MAX implies #[trigger] settled(
        grid,
        g,
        t,
    ) by {
        assert(covered(grid, g, Seq::<Node>::empty(), t));
    }
    assert forall|p: Seq<TileId>| !is_walk(grid, p, start, goal) by {
        if is_walk(grid, p, start, goal) {
            lemma_walk_scored(grid, g, p, start, goal, p.len() - 1);
        }
    }
}

/// Along a walk to the goal whose `j`-th tile is scored no higher than the walk
/// so far: the goal is scored no higher than the walk, or some node still to
/// be expanded has `g + h` no higher than the walk.
proof fn lemma_open_bound(
    grid: Grid2D<bool>,
    g: Seq<u32>,
    open: Seq<Node>,
    w: Seq<TileId>,
    start: TileId,
    goal: TileId,
    j: int,
)
    requires
        grid.wf(),
        g.len() == grid.cfg.cells(),
        scores_small(g),
        is_walk(grid, w, start, goal),
        0 <= j < w.len(),
        g[grid.cfg.flat(w[j])] != u32::MAX,
        g[grid.cfg.flat(w[j])] <= walk_cost(w.take(j + 1)),
        forall|t: TileId| grid.cfg.contains(t) ==> #[trigger] covered(grid, g, open, t),
        forall|k: int| 0 <= k < open.len() ==> #[trigger] open[k].h == octile(open[k].tile, goal),
    ensures
        g[grid.cfg.flat(goal)] <= walk_cost(w) || exists|k: int|
            0 <= k < open.len() && #[trigger] open[k].g + open[k].h <= walk_cost(w),
    decreases w.len() - j,
{
    assert(grid.cfg.contains(w[j]));
    if j == w.len() - 1 {
        assert(w.take(j + 1) =~= w);
    } else {
        let c = step_cost_of(w[j], w[j + 1]);
        assert(w.take(j + 2).drop_last() =~= w.take(j + 1));
        assert(walk_cost(w.take(j + 2)) == walk_cost(w.take(j + 1)) + c);
        assert(grid.cfg.contains(w[j + 1]));
        assert(grid.at(w[j + 1]));
        assert(adjacent8(w[j], w[j + 1]));
        crate::grid::lemma_flat_in_range(grid.cfg, w[j]);
        crate::grid::lemma_flat_in_range(grid.cfg, w[j + 1]);
        if g[grid.cfg.flat(w[j + 1])] != u32::MAX && g[grid.cfg.flat(w[j + 1])] <= walk_cost(w.take(j + 2)) {
            lemma_open_bound(grid, g, open, w, start, goal, j + 1);
        } else {
            assert(covered(grid, g, open, w[j]));
            if settled(grid, g, w[j]) {
                assert(g[grid.cfg.flat(w[j + 1])] <= g[grid.cfg.flat(w[j])] + c);
                assert(g[grid.cfg.flat(w[j])] <= 4_294_967_280);
                assert(false);
            }
            let k = choose|k: int| 0 <= k < open.len() && open[k].tile == w[j] && open[k].g == g[grid.cfg.flat(w[j])];
            lemma_octile_admissible(grid, w, start, goal, j);
            assert(open[k].g + open[k].h <= walk_cost(w));
        }
    }
}

// ---- the search, step by step ----

/// Where a search is: scores, parents and queued nodes, or done with its result.
enum SearchState {
    Searching(Seq<u32>, Seq<Option<TileId>>, Seq<Node>),
    Finished(Option<Seq<TileId>>),
}

/// The place, among the first `k` queued nodes, of the one expanded next: the
/// first that no later node comes before.
spec fn best_upto(open: Seq<Node>, k: int) -> int
    decreases k,
{
    if k <= 1 {
        0
    } else {
        let b = best_upto(open, k - 1);
        if node_before(open[k - 1], open[b]) {
            k - 1
        } else {
            b
        }
    }
}

/// The `i`-th of the nine tiles around and at `t`, row by row from `y - 1`.
spec fn around(t: TileId, i: int) -> TileId {
    TileId { x: (t.x + (i % 3 - 1)) as i32, y: (t.y + (i / 3 - 1)) as i32 }
}

/// The in-bounds neighbours of `t` among the first `k` tiles around it.
spec fn nbrs_upto(cfg: GridConfig, t: TileId, k: int) -> Seq<TileId>
    decreases k,
{
    if k <= 0 {
        Seq::empty()
    } else {
        let prev = nbrs_upto(cfg, t, k - 1);
        if k - 1 != 4 && cfg.contains(around(t, k - 1)) {
            prev.push(around(t, k - 1))
        } else {
            prev
        }
    }
}

/// Relaxing, in turn, the first `q` neighbours `ns` of `cur` (scored `cg`):
/// a walkable neighbour reached more cheaply gets the new score, `cur` as its
/// parent, and a queued node.
spec fn relax_upto(
    grid: Grid2D<bool>,
    goal: TileId,
    cur: TileId,
    cg: u32,
    ns: Seq<TileId>,
    q: int,
    st: (Seq<u32>, Seq<Option<TileId>>, Seq<Node>),
) -> (Seq<u32>, Seq<Option<TileId>>, Seq<Node>)
    decreases q,
{
    if q <= 0 {
        st
    } else {
        let p = relax_upto(grid, goal, cur, cg, ns, q - 1, st);
        let nb = ns[q - 1];
        let ni = grid.cfg.flat(nb);
        let tent = cg + step_cost_of(cur, nb);
        if grid.at(nb) && tent < p.0[ni] {
            (
                p.0.update(ni, tent as u32),
                p.1.update(ni, Some(cur)),
                p.2.push(Node { tile: nb, g: tent as u32, h: octile(nb, goal) as u32 }),
            )
        } else {
            p
        }
    }
}

/// The walk to `t` along recorded parents (while scores go down), start first.
spec fn walk_back(cfg: GridConfig, g: Seq<u32>, came: Seq<Option<TileId>>, t: TileId) -> Seq<TileId>
    decreases g[cfg.flat(t)],
{
    match came[cfg.flat(t)] {
        Some(p) => if g[cfg.flat(p)] < g[cfg.flat(t)] {
            walk_back(cfg, g, came, p).push(t)
        } else {
            seq![t]
        },
        None => seq![t],
    }
}

/// One step of the search: with nothing queued it fails; else it takes the
/// queued node that comes first, and finishes with the walk to it when it is
/// the goal, or relaxes its neighbours.
spec fn search_step(grid: Grid2D<bool>, goal: TileId, st: SearchState) -> SearchState {
    match st {
        SearchState::Finished(r) => SearchState::Finished(r),
        SearchState::Searching(g, came, open) => if open.len() == 0 {
            SearchState::Finished(None)
        } else {
            let b = best_upto(open, open.len() as int);
            let cur = open[b];
            if cur.tile == goal {
                SearchState::Finished(Some(walk_back(grid.cfg, g, came, goal)))
            } else {
                let ns = nbrs_upto(grid.cfg, cur.tile, 9);
                let r = relax_upto(
                    grid,
                    goal,
                    cur.tile,
                    g[grid.cfg.flat(cur.tile)],
                    ns,
                    ns.len() as int,
                    (g, came, open.remove(b)),
                );
                SearchState::Searching(r.0, r.1, r.2)
            }
        },
    }
}

/// `k` steps of the search.
spec fn search_run(grid: Grid2D<bool>, goal: TileId, st: SearchState, k: nat) -> SearchState
    decreases k,
{
    if k == 0 {
        st
    } else {
        search_run(grid, goal, search_step(grid, goal, st), (k - 1) as nat)
    }
}

/// The search before its first step: only the start scored (0) and queued.
spec fn search_init(grid: Grid2D<bool>, start: TileId, goal: TileId) -> SearchState {
    SearchState::Searching(
        Seq::new(grid.cfg.cells() as nat, |i: int| if i == grid.cfg.flat(start) { 0u32 } else { u32::MAX }),
        Seq::new(grid.cfg.cells() as nat, |i: int| None::<TileId>),
        seq![Node { tile: start, g: 0, h: octile(start, goal) as u32 }],
    )
}

/// What the search from `start` to `goal` finishes with: `None` when either end
/// is off the grid.
pub closed spec fn astar_outcome(grid: Grid2D<bool>, start: TileId, goal: TileId) -> Option<Seq<TileId>> {
    if !grid.cfg.contains(start) || !grid.cfg.contains(goal) {
        None
    } else {
        let k = choose|k: nat| search_run(grid, goal, search_init(grid, start, goal), k) is Finished;
        match search_run(grid, goal, search_init(grid, start, goal), k) {
            SearchState::Finished(r) => r,
            SearchState::Searching(..) => None,
        }
    }
}

proof fn lemma_run_last(grid: Grid2D<bool>, goal: TileId, st: SearchState, k: nat)
    ensures
        search_run(grid, goal, st, k + 1) == search_step(grid, goal, search_run(grid, goal, st, k)),
    decreases k,
{
    let st2 = search_step(grid, goal, st);
    assert(search_run(grid, goal, st, k + 1) == search_run(grid, goal, st2, k));
    if k > 0 {
        lemma_run_last(grid, goal, st2, (k - 1) as nat);
        assert(search_run(grid, goal, st, k) == search_run(grid, goal, st2, (k - 1) as nat));
        assert((k - 1) as nat + 1 == k);
    } else {
        assert(search_run(grid, goal, st2, 0) == st2);
    }
}

proof fn lemma_run_finished_stays(grid: Grid2D<bool>, goal: TileId, r: Option<Seq<TileId>>, k: nat)
    ensures
        search_run(grid, goal, SearchState::Finished(r), k) == SearchState::Finished(r),
    decreases k,
{
    if k > 0 {
        lemma_run_finished_stays(grid, goal, r, (k - 1) as nat);
    }
}

proof fn lemma_run_split(grid: Grid2D<bool>, goal: TileId, st: SearchState, a: nat, b: nat)
    ensures
        search_run(grid, goal, st, a + b) == search_run(grid, goal, search_run(grid, goal, st, a), b),
    decreases a,
{
    if a > 0 {
        lemma_run_split(grid, goal, search_step(grid, goal, st), (a - 1) as nat, b);
    }
}

/// A search finishes with one result, however many steps are counted.
proof fn lemma_run_unique(grid: Grid2D<bool>, goal: TileId, st: SearchState, k1: nat, k2: nat)
    requires
        search_run(grid, goal, st, k1) is Finished,
        search_run(grid, goal, st, k2) is Finished,
    ensures
        search_run(grid, goal, st, k1) == search_run(grid, goal, st, k2),
{
    if k1 <= k2 {
        lemma_run_split(grid, goal, st, k1, (k2 - k1) as nat);
        lemma_run_finished_stays(grid, goal, search_run(grid, goal, st, k1)->Finished_0, (k2 - k1) as nat);
    } else {
        lemma_run_split(grid, goal, st, k2, (k1 - k2) as nat);
        lemma_run_finished_stays(grid, goal, search_run(grid, goal, st, k2)->Finished_0, (k1 - k2) as nat);
    }
}

/// A search that finishes with `r` after `k` steps has `r` as its outcome.
proof fn lemma_outcome(grid: Grid2D<bool>, start: TileId, goal: TileId, k: nat, r: Option<Seq<TileId>>)
    requires
        grid.cfg.contains(start),
        grid.cfg.contains(goal),
        search_run(grid, goal, search_init(grid, start, goal), k) == SearchState::Finished(r),
    ensures
        astar_outcome(grid, start, goal) == r,
{
    let init = search_init(grid, start, goal);
    let k2 = choose|k: nat| search_run(grid, goal, init, k) is Finished;
    lemma_run_unique(grid, goal, init, k, k2);
}

/// `s` back to front.
spec fn rev_seq(s: Seq<TileId>) -> Seq<TileId>
    decreases s.len(),
{
    if s.len() == 0 {
        Seq::empty()
    } else {
        seq![s.last()] + rev_seq(s.drop_last())
    }
}

proof fn lemma_rev_index(s: Seq<TileId>)
    ensures
        rev_seq(s).len() == s.len(),
        forall|i: int| 0 <= i < s.len() ==> #[trigger] rev_seq(s)[i] == s[s.len() - 1 - i],
    decreases s.len(),
{
    if s.len() > 0 {
        lemma_rev_index(s.drop_last());
        assert forall|i: int| 0 <= i < s.len() implies #[trigger] rev_seq(s)[i] == s[s.len() - 1 - i] by {
            if i > 0 {
                assert(rev_seq(s)[i] == rev_seq(s.drop_last())[i - 1]);
            }
        }
    }
}

/// Following a recorded parent, whose score is lower, extends the walk back.
proof fn lemma_walk_back_step(grid: Grid2D<bool>, g: Seq<u32>, came: Seq<Option<TileId>>, t: TileId)
    requires
        parent_ok(grid, g, came, t),
        came[grid.cfg.flat(t)] is Some,
    ensures
        walk_back(grid.cfg, g, came, t) == walk_back(grid.cfg, g, came, came[grid.cfg.flat(t)]->0).push(t),
{
}

/// One expanding step of the search, spelled out.
proof fn lemma_step_expand(
    grid: Grid2D<bool>,
    goal: TileId,
    g: Seq<u32>,
    came: Seq<Option<TileId>>,
    open: Seq<Node>,
    b: int,
)
    requires
        open.len() > 0,
        b == best_upto(open, open.len() as int),
        open[b].tile != goal,
    ensures
        search_step(grid, goal, SearchState::Searching(g, came, open)) == ({
            let ns = nbrs_upto(grid.cfg, open[b].tile, 9);
            let r = relax_upto(
                grid,
                goal,
                open[b].tile,
                g[grid.cfg.flat(open[b].tile)],
                ns,
                ns.len() as int,
                (g, came, open.remove(b)),
            );
            SearchState::Searching(r.0, r.1, r.2)
        }),
{
}

/// 8-way deterministic A* over a walkability grid. Returns a cheapest walk from
/// `start` to `goal` (see `is_walk` and `walk_cost`); `None` exactly when either
/// end is outside the grid or no walk joins them. The walk is
/// `astar_outcome(grid, start, goal)`, a function of the three inputs: queued
/// nodes are expanded by lower `g + h`, then lower `h`, then lower `y`, then
/// lower `x`, so equal inputs always give the same walk.
#[verifier::spinoff_prover]
#[verifier::rlimit(80)]
pub fn astar(grid: &Grid2D<bool>, start: TileId, goal: TileId) -> (r: Option<Vec<TileId>>)
    requires
        grid.wf(),
        cost_room(grid.cfg),
    ensures
        !grid.cfg.contains(start) || !grid.cfg.contains(goal) ==> r is None,
        r matches Some(p) ==> is_walk(*grid, p@, start, goal),
        (exists|p: Seq<TileId>| is_walk(*grid, p, start, goal)) ==> r is Some,
        r matches Some(p) ==> forall|q: Seq<TileId>| is_walk(*grid, q, start, goal) ==> walk_cost(p@) <= walk_cost(q),
        match r {
            Some(p) => astar_outcome(*grid, start, goal) == Some(p@),
            None => astar_outcome(*grid, start, goal) is None,
        },
{
    let cfg = grid.cfg;
    if !cfg.in_bounds(start) || !cfg.in_bounds(goal) {
        proof {
            reveal(astar_outcome);
        }
        return None;
    }
    proof {
        assert(cfg.width <= cfg.cells() && cfg.height <= cfg.cells()) by (nonlinear_arith)
            requires
                cfg.width >= 1,
                cfg.height >= 1,
        ;
    }
    let n = (cfg.width * cfg.height) as usize;
    let mut g_score: Vec<u32> = Vec::new();
    let mut came_from: Vec<Option<TileId>> = Vec::new();
    while g_score.len() < n
        invariant
            g_score@.len() == came_from@.len(),
            g_score@.len() <= n,
            n == cfg.cells(),
            forall|i: int| 0 <= i < g_score@.len() ==> g_score@[i] == u32::MAX,
            forall|i: int| 0 <= i < came_from@.len() ==> came_from@[i] is None,
        decreases n - g_score@.len(),
    {
        g_score.push(u32::MAX);
        came_from.push(None);
    }
    let si = cfg.index(start).unwrap();
    proof {
        lemma_reached_insert(g_score@, si as int, 0);
        crate::grid::lemma_flat_in_range(cfg, start);
    }
    g_score.set(si, 0);
    let mut open: Vec<Node> = Vec::new();
    let h0 = heuristic(start, goal, cfg);
    open.push(Node { tile: start, g: 0, h: h0 });
    proof {
        assert(reached(g_score@) =~= set![si as int]);
        assert forall|t: TileId| cfg.contains(t) implies #[trigger] parent_ok(
            *grid,
            g_score@,
            came_from@,
            t,
        ) by {
            crate::grid::lemma_flat_in_range(cfg, t);
        }
        assert forall|t: TileId| cfg.contains(t) implies #[trigger] root_ok(
            cfg,
            g_score@,
            came_from@,
            start,
            t,
        ) by {
            crate::grid::lemma_flat_in_range(cfg, t);
            if t != start {
                crate::grid::lemma_flat_injective(cfg, t, start);
            }
        }
        assert(open@[0].tile == start && open@[0].g == 0);
        assert forall|t: TileId| cfg.contains(t) implies #[trigger] covered(*grid, g_score@, open@, t) by {
            crate::grid::lemma_flat_in_range(cfg, t);
            if t != start {
                crate::grid::lemma_flat_injective(cfg, t, start);
            }
        }
        crate::grid::lemma_flat_in_range(cfg, goal);
        if goal != start {
            crate::grid::lemma_flat_injective(cfg, goal, start);
        }
        let init = search_init(*grid, start, goal);
        assert(init == SearchState::Searching(g_score@, came_from@, open@)) by {
            assert(g_score@ =~= Seq::new(cfg.cells() as nat, |i: int| if i == cfg.flat(start) { 0u32 } else { u32::MAX }));
            assert(came_from@ =~= Seq::new(cfg.cells() as nat, |i: int| None::<TileId>));
            assert(open@ =~= seq![Node { tile: start, g: 0, h: octile(start, goal) as u32 }]);
        }
        assert(search_run(*grid, goal, init, 0) == init);
    }
    loop
        invariant
            exists|kk: nat|
                #[trigger] search_run(*grid, goal, search_init(*grid, start, goal), kk) == SearchState::Searching(
                    g_score@,
                    came_from@,
                    open@,
                ),
            grid.wf(),
            cfg == grid.cfg,
            cfg.contains(start),
            cfg.contains(goal),
            cost_room(cfg),
            n == cfg.cells(),
            g_score@.len() == n,
            came_from@.len() == n,
            g_score@[cfg.flat(start)] == 0,
            reached(g_score@).len() >= 1,
            forall|i: int|
                0 <= i < n && g_score@[i] != u32::MAX ==> #[trigger] g_score@[i] <= 14 * (
                reached(g_score@).len() - 1),
            forall|k: int|
                0 <= k < open@.len() ==> cfg.contains(#[trigger] open@[k].tile) && g_score@[cfg.flat(
                    open@[k].tile,
                )] != u32::MAX && open@[k].g <= 14 * n && open@[k].h <= h_cap(cfg),
            forall|k: int|
                0 <= k < open@.len() ==> #[trigger] open@[k].h == octile(open@[k].tile, goal) && open@[k].g
                    >= g_score@[cfg.flat(open@[k].tile)],
            forall|t: TileId| cfg.contains(t) ==> #[trigger] parent_ok(*grid, g_score@, came_from@, t),
            forall|t: TileId| cfg.contains(t) ==> #[trigger] root_ok(cfg, g_score@, came_from@, start, t),
            forall|t: TileId| cfg.contains(t) ==> #[trigger] covered(*grid, g_score@, open@, t),
            g_score@[cfg.flat(goal)] != u32::MAX ==> open_has(open@, goal),
        decreases total(g_score@), open@.len(),
    {
        proof {
            lemma_reached_bound(g_score@);
            crate::grid::lemma_flat_in_range(cfg, start);
        }
        let ghost init = search_init(*grid, start, goal);
        let ghost kk = choose|kk: nat| #[trigger] search_run(*grid, goal, init, kk) == SearchState::Searching(
            g_score@,
            came_from@,
            open@,
        );
        let ghost g0 = g_score@;
        let ghost came0 = came_from@;
        if open.len() == 0 {
            proof {
                assert(open@ =~= Seq::<Node>::empty());
                crate::grid::lemma_flat_in_range(cfg, goal);
                assert(scores_small(g_score@));
                lemma_no_walk(*grid, g_score@, start, goal);
                lemma_run_last(*grid, goal, init, kk);
                lemma_outcome(*grid, start, goal, kk + 1, None);
            }
            return None;
        }
        // Take the node that comes first in the search order.
        assert forall|j: int| 0 <= j < open@.len() implies open@[j].g <= 14 * n && open@[j].h <= h_cap(cfg) by {
            assert(cfg.contains(open@[j].tile));
        }
        let mut best: usize = 0;
        let mut k: usize = 1;
        while k < open.len()
            invariant
                1 <= k <= open@.len(),
                best < open@.len(),
                forall|j: int|
                    0 <= j < open@.len() ==> open@[j].g <= 14 * n && open@[j].h <= h_cap(cfg),
                14 * n + h_cap(cfg) <= u32::MAX,
                forall|j: int| 0 <= j < k ==> open@[best as int].g + open@[best as int].h <= #[trigger] open@[j].g + open@[j].h,
                best as int == best_upto(open@, k as int),
            decreases open@.len() - k,
        {
            if before(&open[k], &open[best]) {
                best = k;
            }
            k = k + 1;
        }
        let ghost open_before = open@;
        let current = open.remove(best);
        let ghost open_rm = open@;
        proof {
            assert(search_run(*grid, goal, init, kk) == SearchState::Searching(g0, came0, open_before));
            assert(cfg.contains(current.tile));
            assert forall|t: TileId| t != current.tile && open_has(open_before, t) implies open_has(open@, t) by {
                let k = choose|k: int| 0 <= k < open_before.len() && open_before[k].tile == t;
                if k < best {
                    assert(open@[k] == open_before[k]);
                } else {
                    assert(k > best);
                    assert(open@[k - 1] == open_before[k]);
                }
            }
            assert forall|t: TileId, v: u32| t != current.tile && open_entry(open_before, t, v) implies open_entry(
                open@,
                t,
                v,
            ) by {
                let k = choose|k: int| 0 <= k < open_before.len() && open_before[k].tile == t && open_before[k].g == v;
                if k < best {
                    assert(open@[k] == open_before[k]);
                } else {
                    assert(k > best);
                    assert(open@[k - 1] == open_before[k]);
                }
            }
            assert forall|k: int| 0 <= k < open@.len() implies #[trigger] open@[k].h == octile(open@[k].tile, goal)
                && open@[k].g >= g_score@[cfg.flat(open@[k].tile)] by {
                if k < best {
                    assert(open@[k] == open_before[k]);
                } else {
                    assert(open@[k] == open_before[k + 1]);
                }
            }
        }
        if current.tile == goal {
            let ghost goal_g = g_score@[cfg.flat(goal)];
            proof {
                // No walk to the goal is cheaper than its score.
                assert(scores_small(g_score@));
                assert(current == open_before[best as int]);
                assert(current.h == 0);
                assert forall|w: Seq<TileId>| is_walk(*grid, w, start, goal) implies goal_g <= walk_cost(w) by {
                    assert(w.take(1) =~= seq![start]);
                    lemma_open_bound(*grid, g_score@, open_before, w, start, goal, 0);
                    if !(goal_g <= walk_cost(w)) {
                        let k = choose|k: int| 0 <= k < open_before.len() && #[trigger] open_before[k].g + open_before[k].h <= walk_cost(w);
                        assert(open_before[best as int].g + open_before[best as int].h <= open_before[k].g + open_before[k].h);
                    }
                }
            }
            let ghost outcome = walk_back(cfg, g_score@, came_from@, goal);
            proof {
                lemma_run_last(*grid, goal, init, kk);
                assert(search_run(*grid, goal, init, kk + 1) == SearchState::Finished(Some(outcome)));
            }
            let mut path: Vec<TileId> = Vec::new();
            path.push(goal);
            let mut cur = goal;
            proof {
                assert(path@.drop_last() =~= Seq::<TileId>::empty());
                assert(outcome + rev_seq(path@.drop_last()) =~= outcome);
            }
            loop
                invariant
                    outcome == walk_back(cfg, g_score@, came_from@, cur) + rev_seq(path@.drop_last()),
                    walk_cost(path@) + g_score@[cfg.flat(cur)] <= goal_g,
                    forall|w: Seq<TileId>| is_walk(*grid, w, start, goal) ==> goal_g <= walk_cost(w),
                    grid.wf(),
                    cfg == grid.cfg,
                    n == cfg.cells(),
                    g_score@.len() == n,
                    came_from@.len() == n,
                    cfg.contains(cur),
                    cfg.contains(start),
                    g_score@[cfg.flat(cur)] != u32::MAX,
                    path@.len() >= 1,
                    path@[0] == goal,
                    path@.last() == cur,
                    forall|i: int| 0 <= i < path@.len() ==> cfg.contains(#[trigger] path@[i]),
                    forall|i: int| 0 <= i < path@.len() - 1 ==> grid.at(#[trigger] path@[i]),
                    forall|i: int|
                        0 <= i < path@.len() - 1 ==> adjacent8(path@[i + 1], #[trigger] path@[i]),
                    forall|t: TileId| cfg.contains(t) ==> #[trigger] parent_ok(*grid, g_score@, came_from@, t),
                    forall|t: TileId| cfg.contains(t) ==> #[trigger] root_ok(cfg, g_score@, came_from@, start, t),
                ensures
                    outcome == seq![cur] + rev_seq(path@.drop_last()),
                    walk_cost(path@) + g_score@[cfg.flat(cur)] <= goal_g,
                    forall|w: Seq<TileId>| is_walk(*grid, w, start, goal) ==> goal_g <= walk_cost(w),
                    cfg.contains(cur),
                    came_from@[cfg.flat(cur)] is None,
                    g_score@[cfg.flat(cur)] != u32::MAX,
                    path@.len() >= 1,
                    path@[0] == goal,
                    path@.last() == cur,
                    forall|i: int| 0 <= i < path@.len() ==> cfg.contains(#[trigger] path@[i]),
                    forall|i: int| 0 <= i < path@.len() - 1 ==> grid.at(#[trigger] path@[i]),
                    forall|i: int|
                        0 <= i < path@.len() - 1 ==> adjacent8(path@[i + 1], #[trigger] path@[i]),
                decreases g_score@[cfg.flat(cur)],
            {
                let ci = cfg.index(cur).unwrap();
                proof {
                    crate::grid::lemma_flat_in_range(cfg, cur);
                    assert(parent_ok(*grid, g_score@, came_from@, cur));
                }
                match came_from[ci] {
                    Some(prev) => {
                        proof {
                            crate::grid::lemma_flat_in_range(cfg, prev);
                        }
                        let ghost path0 = path@;
                        path.push(prev);
                        proof {
                            assert(path@.drop_last() == path0);
                            lemma_walk_back_step(*grid, g_score@, came_from@, cur);
                            assert(rev_seq(path0) == seq![cur] + rev_seq(path0.drop_last()));
                            let wp = walk_back(cfg, g_score@, came_from@, prev);
                            assert(wp.push(cur) + rev_seq(path0.drop_last()) =~= wp + (seq![cur] + rev_seq(
                                path0.drop_last(),
                            )));
                            assert(path@[path@.len() - 2] == cur);
                            assert(walk_cost(path@) == walk_cost(path0) + step_cost_of(cur, prev));
                        }
                        cur = prev;
                    },
                    None => {
                        proof {
                            assert(walk_back(cfg, g_score@, came_from@, cur) == seq![cur]);
                        }
                        break ;
                    },
                }
            }
            assert(root_ok(cfg, g_score@, came_from@, start, cur));
            assert(cur == start);
            // Reverse into start-to-goal order.
            let mut fwd: Vec<TileId> = Vec::new();
            let mut j: usize = path.len();
            while j > 0
                invariant
                    j <= path@.len(),
                    fwd@.len() == path@.len() - j,
                    forall|i: int| 0 <= i < fwd@.len() ==> fwd@[i] == path@[path@.len() - 1 - i],
                decreases j,
            {
                j = j - 1;
                fwd.push(path[j]);
            }
            proof {
                let L = path@.len() as int;
                assert forall|i: int| 1 <= i < fwd@.len() implies adjacent8(
                    fwd@[i - 1],
                    #[trigger] fwd@[i],
                ) by {
                    assert(fwd@[i] == path@[L - 1 - i]);
                    assert(fwd@[i - 1] == path@[(L - 1 - i) + 1]);
                }
                assert forall|i: int| 1 <= i < fwd@.len() implies grid.at(#[trigger] fwd@[i]) by {
                    assert(fwd@[i] == path@[L - 1 - i]);
                }
                assert forall|i: int| 0 <= i < fwd@.len() implies cfg.contains(#[trigger] fwd@[i]) by {
                    assert(fwd@[i] == path@[L - 1 - i]);
                }
                lemma_cost_reversed(path@, fwd@);
                lemma_rev_index(path@);
                assert(rev_seq(path@) == seq![cur] + rev_seq(path@.drop_last()));
                assert(fwd@ =~= rev_seq(path@));
                lemma_outcome(*grid, start, goal, kk + 1, Some(fwd@));
            }
            return Some(fwd);
        }
        let cidx = cfg.index(current.tile).unwrap();
        let curr_g = g_score[cidx];
        proof {
            crate::grid::lemma_flat_in_range(cfg, current.tile);
            assert(curr_g <= 14 * (reached(g_score@).len() - 1));
        }
        let ns = neighbors(cfg, current.tile);
        proof {
            assert forall|t: TileId| cfg.contains(t) && t != current.tile implies #[trigger] covered(
                *grid,
                g_score@,
                open@,
                t,
            ) by {
                assert(covered(*grid, g_score@, open_before, t));
            }
        }
        proof {
            lemma_step_expand(*grid, goal, g0, came0, open_before, best as int);
        }
        let ghost target = search_step(*grid, goal, SearchState::Searching(g0, came0, open_before));
        proof {
            assert(open_rm == open_before.remove(best as int));
            assert(ns@ == nbrs_upto(cfg, current.tile, 9));
            assert(g0[cfg.flat(current.tile)] == curr_g);
            assert((g_score@, came_from@, open@) == relax_upto(*grid, goal, current.tile, curr_g, ns@, 0, (g0, came0, open_rm)));
        }
        let ghost total0 = total(g_score@);
        let ghost len0 = open@.len();
        let mut pushes: usize = 0;
        let mut q: usize = 0;
        while q < ns.len()
            invariant
                (g_score@, came_from@, open@) == relax_upto(
                    *grid,
                    goal,
                    current.tile,
                    curr_g,
                    ns@,
                    q as int,
                    (g0, came0, open_rm),
                ),
                target == ({
                    let r = relax_upto(*grid, goal, current.tile, curr_g, ns@, ns@.len() as int, (g0, came0, open_rm));
                    SearchState::Searching(r.0, r.1, r.2)
                }),
                search_run(*grid, goal, init, kk) == SearchState::Searching(g0, came0, open_before),
                grid.wf(),
                cfg == grid.cfg,
                cfg.contains(start),
                cfg.contains(goal),
                cfg.contains(current.tile),
                cost_room(cfg),
                n == cfg.cells(),
                g_score@.len() == n,
                came_from@.len() == n,
                cidx as int == cfg.flat(current.tile),
                cidx < n,
                0 <= cfg.flat(start) < n,
                curr_g == g_score@[cidx as int],
                curr_g != u32::MAX,
                q <= ns@.len(),
                forall|i: int|
                    0 <= i < ns@.len() ==> cfg.contains(#[trigger] ns@[i]) && adjacent8(
                        current.tile,
                        ns@[i],
                    ),
                g_score@[cfg.flat(start)] == 0,
                reached(g_score@).len() >= 1,
                curr_g <= 14 * (reached(g_score@).len() - 1),
                forall|i: int|
                    0 <= i < n && g_score@[i] != u32::MAX ==> #[trigger] g_score@[i] <= 14 * (
                    reached(g_score@).len() - 1),
                forall|k: int|
                    0 <= k < open@.len() ==> cfg.contains(#[trigger] open@[k].tile) && g_score@[cfg.flat(
                        open@[k].tile,
                    )] != u32::MAX && open@[k].g <= 14 * n && open@[k].h <= h_cap(cfg),
                forall|t: TileId| cfg.contains(t) ==> #[trigger] parent_ok(*grid, g_score@, came_from@, t),
                forall|t: TileId| cfg.contains(t) ==> #[trigger] root_ok(cfg, g_score@, came_from@, start, t),
                pushes <= q,
                total(g_score@) + pushes <= total0,
                open@.len() == len0 + pushes,
                current.tile != goal,
                forall|t: TileId| cfg.contains(t) && adjacent8(current.tile, t) ==> ns@.contains(t),
                forall|t: TileId|
                    cfg.contains(t) && t != current.tile ==> #[trigger] covered(*grid, g_score@, open@, t),
                g_score@[cfg.flat(goal)] != u32::MAX ==> open_has(open@, goal),
                forall|i: int|
                    0 <= i < q && grid.at(#[trigger] ns@[i]) ==> g_score@[cfg.flat(ns@[i])] <= curr_g + step_cost_of(
                        current.tile,
                        ns@[i],
                    ),
                forall|k: int|
                    0 <= k < open@.len() ==> #[trigger] open@[k].h == octile(open@[k].tile, goal) && open@[k].g
                        >= g_score@[cfg.flat(open@[k].tile)],
            decreases ns@.len() - q,
        {
            proof {
                lemma_reached_bound(g_score@);
            }
            let nb = ns[q];
            let ghost g_before = g_score@;
            let ghost came_before = came_from@;
            let ghost open_before_q = open@;
            let walk = match grid.get(nb) {
                Some(w) => *w,
                None => false,
            };
            if walk {
                let ni = cfg.index(nb).unwrap();
                proof {
                    crate::grid::lemma_flat_in_range(cfg, nb);
                    assert(reached(g_score@).len() <= n);
                }
                let tentative = curr_g + step_cost(current.tile, nb);
                proof {
                    // A score no better than this step is a score.
                    if tentative >= g_score@[ni as int] {
                        assert(g_score@[ni as int] != u32::MAX);
                    }
                }
                if tentative < g_score[ni] {
                    let ghost old_g = g_score@;
                    let ghost old_came = came_from@;
                    let ghost old_open = open@;
                    proof {
                        if old_g[ni as int] == u32::MAX {
                            lemma_reached_insert(old_g, ni as int, tentative);
                            assert(!reached(old_g).contains(ni as int));
                        } else {
                            lemma_reached_same(old_g, ni as int, tentative);
                        }
                        lemma_total_update(old_g, ni as int, tentative);
                        lemma_reached_bound(old_g.update(ni as int, tentative));
                    }
                    came_from.set(ni, Some(current.tile));
                    g_score.set(ni, tentative);
                    let h = heuristic(nb, goal, cfg);
                    open.push(Node { tile: nb, g: tentative, h });
                    pushes = pushes + 1;
                    proof {
                        lemma_relax_keeps(
                            *grid,
                            old_g,
                            old_came,
                            old_open,
                            current.tile,
                            nb,
                            tentative,
                            open@.last(),
                            start,
                            goal,
                            n as int,
                        );
                        assert(open@ == old_open.push(open@.last()));
                        crate::grid::lemma_flat_injective(cfg, current.tile, nb);
                        assert forall|j: int| 0 <= j < n implies #[trigger] g_score@[j] <= g_before[j] by {}
                    }
                }
            }
            proof {
                assert((g_score@, came_from@, open@) == relax_upto(
                    *grid,
                    goal,
                    current.tile,
                    curr_g,
                    ns@,
                    q as int + 1,
                    (g0, came0, open_rm),
                ));
                assert forall|i: int| 0 <= i < q + 1 && grid.at(#[trigger] ns@[i]) implies g_score@[cfg.flat(ns@[i])]
                    <= curr_g + step_cost_of(current.tile, ns@[i]) by {
                    crate::grid::lemma_flat_in_range(cfg, ns@[i]);
                    if i < q {
                        assert(g_before[cfg.flat(ns@[i])] <= curr_g + step_cost_of(current.tile, ns@[i]));
                    }
                }
            }
            q = q + 1;
        }
        proof {
            lemma_run_last(*grid, goal, init, kk);
            assert(search_run(*grid, goal, init, kk + 1) == SearchState::Searching(g_score@, came_from@, open@));
            lemma_total_nonneg(g_score@);
            assert forall|m: TileId|
                cfg.contains(m) && adjacent8(current.tile, m) && grid.at(m) implies #[trigger] g_score@[cfg.flat(m)]
                <= g_score@[cfg.flat(current.tile)] + step_cost_of(current.tile, m) by {
                assert(ns@.contains(m));
                let i = choose|i: int| 0 <= i < ns@.len() && ns@[i] == m;
                assert(grid.at(ns@[i]));
            }
            assert(settled(*grid, g_score@, current.tile));
            assert forall|t: TileId| cfg.contains(t) implies #[trigger] covered(*grid, g_score@, open@, t) by {
                if t == current.tile {
                } else {
                }
            }
        }
    }
}

} // verus!
