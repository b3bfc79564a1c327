//! Tile coordinates and a 2D grid backed by a flat vector.
use vstd::prelude::*;

verus! {

/// Configuration for a 2D grid.
#[derive(Debug, Clone, Copy, PartialEq, Eq, Structural)]
pub struct GridConfig {
    pub width: u32,
    pub height: u32,
}

/// Tile identifier using Bevy-style coordinates (x to the right, y up).
#[derive(Debug, Clone, Copy, PartialEq, Eq, Structural, Hash, Default)]
pub struct TileId {
    pub x: i32,
    pub y: i32,
}

impl TileId {
    /// The tile at (x, y).
    pub fn new(x: i32, y: i32) -> (r: Self)
        ensures
            r.x == x,
            r.y == y,
    {
        TileId { x, y }
    }
}

impl GridConfig {
    /// Whether `t` lies in `[0, width) x [0, height)`.
    pub open spec fn contains(self, t: TileId) -> bool {
        0 <= t.x && 0 <= t.y && t.x < self.width && t.y < self.height
    }

    /// Number of cells.
    pub open spec fn cells(self) -> int {
        self.width * self.height
    }

    /// Row-major position of `t` in the flat storage.
    pub open spec fn flat(self, t: TileId) -> int {
        t.y * self.width + t.x
    }

    pub fn in_bounds(&self, tile: TileId) -> (r: bool)
        ensures
            r == self.contains(tile),
    {
        tile.x >= 0 && tile.y >= 0 && (tile.x as u32) < self.width && (tile.y as u32)
            < self.height
    }

    /// Row-major index of an in-bounds tile, `None` outside the grid.
    pub fn index(&self, tile: TileId) -> (r: Option<usize>)
        requires
            self.cells() <= usize::MAX,
        ensures
            r is Some <==> self.contains(tile),
            r matches Some(i) ==> i as int == self.flat(tile) && i < self.cells(),
    {
        if self.in_bounds(tile) {
            proof {
                lemma_flat_in_range(*self, tile);
            }
            Some(tile.y as usize * self.width as usize + tile.x as usize)
        } else {
            None
        }
    }
}

/// The flat index of an in-bounds tile lies in `[0, cells)`.
pub proof fn lemma_flat_in_range(cfg: GridConfig, t: TileId)
    requires
        cfg.contains(t),
    ensures
        0 <= cfg.flat(t) < cfg.cells(),
{
    assert(0 <= t.y * cfg.width + t.x < cfg.width * cfg.height) by (nonlinear_arith)
        requires
            0 <= t.x < cfg.width,
            0 <= t.y < cfg.height,
    ;
}

/// Distinct in-bounds tiles occupy distinct cells of the flat storage.
pub proof fn lemma_flat_injective(cfg: GridConfig, a: TileId, b: TileId)
    requires
        cfg.contains(a),
        cfg.contains(b),
        a != b,
    ensures
        cfg.flat(a) != cfg.flat(b),
{
    if a.y == b.y {
        assert(a.x != b.x);
    } else if a.y < b.y {
        assert(a.y * cfg.width + a.x < b.y * cfg.width + b.x) by (nonlinear_arith)
            requires
                0 <= a.x < cfg.width,
                0 <= b.x,
                a.y < b.y,
        ;
    } else {
        assert(b.y * cfg.width + b.x < a.y * cfg.width + a.x) by (nonlinear_arith)
            requires
                0 <= b.x < cfg.width,
                0 <= a.x,
                b.y < a.y,
        ;
    }
}

/// Simple 2D grid backed by a flat vector.
#[derive(Clone, Debug)]
pub struct Grid2D<T> {
    pub cfg: GridConfig,
    pub data: Vec<T>,
}

impl<T: Copy> Grid2D<T> {
    /// The storage has one cell per tile and can be indexed by `usize`.
    pub open spec fn wf(&self) -> bool {
        &&& self.data@.len() == self.cfg.cells()
        &&& self.cfg.cells() <= u32::MAX
    }

    /// Value stored for tile `t`, which must be in bounds.
    pub open spec fn at(&self, t: TileId) -> T {
        self.data@[self.cfg.flat(t)]
    }

    /// A grid of `cfg` with every cell set to `default`.
    pub fn new(cfg: GridConfig, default: T) -> (g: Self)
        requires
            cfg.width * cfg.height <= u32::MAX,
        ensures
            g.wf(),
            g.cfg == cfg,
            forall|i: int| 0 <= i < g.data@.len() ==> g.data@[i] == default,
    {
        let len = (cfg.width * cfg.height) as usize;
        let mut data: Vec<T> = Vec::new();
        while data.len() < len
            invariant
                data@.len() <= len,
                len == cfg.width * cfg.height,
                forall|i: int| 0 <= i < data@.len() ==> data@[i] == default,
            decreases len - data@.len(),
        {
            data.push(default);
        }
        Grid2D { cfg, data }
    }

    /// The cell of an in-bounds tile.
    pub fn get(&self, tile: TileId) -> (r: Option<&T>)
        requires
            self.wf(),
        ensures
            r == if self.cfg.contains(tile) {
                Some(&self.at(tile))
            } else {
                None::<&T>
            },
    {
        match self.cfg.index(tile) {
            Some(i) => Some(&self.data[i]),
            None => None,
        }
    }

    /// A mutable handle on the cell of an in-bounds tile: what is written through
    /// it lands in that cell and nowhere else.
    pub fn get_mut(&mut self, tile: TileId) -> (r: Option<&mut T>)
        requires
            old(self).wf(),
        ensures
            r is Some <==> old(self).cfg.contains(tile),
            final(self).cfg == old(self).cfg,
            match r {
                Some(c) => *c == old(self).at(tile) && final(self).data@ == old(self).data@.update(
                    old(self).cfg.flat(tile),
                    *final(c),
                ),
                None => final(self).data@ == old(self).data@,
            },
    {
        match self.cfg.index(tile) {
            Some(i) => Some(&mut self.data[i]),
            None => None,
        }
    }

    /// Overwrite the cell of an in-bounds tile; out-of-bounds tiles are ignored.
    pub fn set(&mut self, tile: TileId, value: T)
        requires
            old(self).wf(),
        ensures
            final(self).wf(),
            final(self).cfg == old(self).cfg,
            final(self).data@ == if old(self).cfg.contains(tile) {
                old(self).data@.update(old(self).cfg.flat(tile), value)
            } else {
                old(self).data@
            },
    {
        match self.cfg.index(tile) {
            Some(i) => {
                self.data.set(i, value);
            },
            None => {},
        }
    }
}

} // verus!
