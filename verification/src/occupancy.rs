//! Occupancy flags per tile.
use vstd::prelude::*;
use crate::grid::{Grid2D, GridConfig, TileId};

verus! {

/// A set of the flags PAWN, ITEM and BUILDING.
#[derive(Debug, Clone, Copy, PartialEq, Eq, Structural, Hash, Default)]
pub struct Occupancy {
    bits: u8,
}

/// The bits that name a flag.
pub open spec fn all_bits() -> u8 {
    7
}

impl Occupancy {
    pub closed spec fn view(self) -> u8 {
        self.bits
    }

    /// No flag.
    pub fn empty() -> (r: Self)
        ensures
            r@ == 0,
    {
        Occupancy { bits: 0 }
    }

    pub fn pawn() -> (r: Self)
        ensures
            r@ == 1,
    {
        Occupancy { bits: 1 }
    }

    pub fn item() -> (r: Self)
        ensures
            r@ == 2,
    {
        Occupancy { bits: 2 }
    }

    pub fn building() -> (r: Self)
        ensures
            r@ == 4,
    {
        Occupancy { bits: 4 }
    }

    /// The raw bits.
    pub fn bits(&self) -> (r: u8)
        ensures
            r == self@,
    {
        self.bits
    }

    /// Whether every flag of `other` is set.
    pub fn contains(&self, other: Occupancy) -> (r: bool)
        ensures
            r == (self@ & other@ == other@),
    {
        (self.bits & other.bits) == other.bits
    }

    /// The flags of either.
    pub fn union(&self, other: Occupancy) -> (r: Occupancy)
        ensures
            r@ == self@ | other@,
    {
        Occupancy { bits: self.bits | other.bits }
    }

    /// The flags of `self` without those of `other`.
    pub fn difference(&self, other: Occupancy) -> (r: Occupancy)
        ensures
            r@ == self@ & (!other@ & all_bits()),
    {
        Occupancy { bits: self.bits & (!other.bits & 7) }
    }
}

/// `b` is `a` with `flags` set on `tile` (when on the grid).
pub open spec fn occupied_after(a: OccupancyMap, b: OccupancyMap, tile: TileId, flags: u8) -> bool {
    forall|t: TileId|
        #[trigger] b.cell(t) == if t == tile && a.cfg().contains(tile) {
            a.cell(t) | flags
        } else {
            a.cell(t)
        }
}

/// `b` is `a` with `flags` cleared on `tile` (when on the grid).
pub open spec fn vacated_after(a: OccupancyMap, b: OccupancyMap, tile: TileId, flags: u8) -> bool {
    forall|t: TileId|
        #[trigger] b.cell(t) == if t == tile && a.cfg().contains(tile) {
            a.cell(t) & (!flags & all_bits())
        } else {
            a.cell(t)
        }
}

/// The tile an entity stands on, as recorded beside it.
#[derive(Debug, Clone, Copy, PartialEq, Eq, Structural)]
pub struct EntityTileLink {
    pub tile: TileId,
}

/// Tile occupancy flags over a grid.
#[derive(Debug)]
pub struct OccupancyMap {
    grid: Grid2D<Occupancy>,
}

impl OccupancyMap {
    /// The grid has one cell per tile.
    pub closed spec fn wf(self) -> bool {
        self.grid.wf()
    }

    /// The flags of tile `t` (none outside the grid).
    pub closed spec fn cell(self, t: TileId) -> u8 {
        if self.grid.cfg.contains(t) {
            self.grid.at(t)@
        } else {
            0
        }
    }

    pub closed spec fn cfg(self) -> GridConfig {
        self.grid.cfg
    }

    /// A map over `cfg` with no flag set.
    pub fn new(cfg: GridConfig) -> (r: Self)
        requires
            cfg.width * cfg.height <= u32::MAX,
        ensures
            r.wf(),
            r.cfg() == cfg,
            forall|t: TileId| r.cell(t) == 0,
    {
        let r = OccupancyMap { grid: Grid2D::new(cfg, Occupancy::empty()) };
        proof {
            assert forall|t: TileId| r.cell(t) == 0 by {
                if cfg.contains(t) {
                    crate::grid::lemma_flat_in_range(cfg, t);
                }
            }
        }
        r
    }

    /// Set `flags` on an in-bounds tile; other tiles are unchanged.
    pub fn occupy(&mut self, tile: TileId, flags: Occupancy)
        requires
            old(self).wf(),
        ensures
            final(self).wf(),
            final(self).cfg() == old(self).cfg(),
            occupied_after(*old(self), *final(self), tile, flags@),
    {
        let cur = self.get(tile);
        let next = cur.union(flags);
        let ghost before = *self;
        self.grid.set(tile, next);
        proof {
            lemma_cells_after_set(before, *self, tile, next);
        }
    }

    /// Clear `flags` on an in-bounds tile; other tiles are unchanged.
    pub fn vacate(&mut self, tile: TileId, flags: Occupancy)
        requires
            old(self).wf(),
        ensures
            final(self).wf(),
            final(self).cfg() == old(self).cfg(),
            vacated_after(*old(self), *final(self), tile, flags@),
    {
        let cur = self.get(tile);
        let next = cur.difference(flags);
        let ghost before = *self;
        self.grid.set(tile, next);
        proof {
            lemma_cells_after_set(before, *self, tile, next);
        }
    }

    /// The flags of `tile`; none outside the grid.
    pub fn get(&self, tile: TileId) -> (r: Occupancy)
        requires
            self.wf(),
        ensures
            r@ == self.cell(tile),
    {
        match self.grid.get(tile) {
            Some(v) => *v,
            None => Occupancy::empty(),
        }
    }
}

proof fn lemma_cells_after_set(before: OccupancyMap, after: OccupancyMap, tile: TileId, v: Occupancy)
    requires
        before.grid.wf(),
        after.grid.cfg == before.grid.cfg,
        after.grid.data@ == if before.grid.cfg.contains(tile) {
            before.grid.data@.update(before.grid.cfg.flat(tile), v)
        } else {
            before.grid.data@
        },
    ensures
        forall|t: TileId|
            #[trigger] after.cell(t) == if t == tile && before.cfg().contains(tile) {
                v@
            } else {
                before.cell(t)
            },
{
    let cfg = before.grid.cfg;
    assert forall|t: TileId|
        #[trigger] after.cell(t) == if t == tile && before.cfg().contains(tile) {
            v@
        } else {
            before.cell(t)
        } by {
        if cfg.contains(t) {
            crate::grid::lemma_flat_in_range(cfg, t);
            if cfg.contains(tile) {
                crate::grid::lemma_flat_in_range(cfg, tile);
                if t != tile {
                    crate::grid::lemma_flat_injective(cfg, t, tile);
                }
            }
        }
    }
}


// ---- laws ----

/// Flags set by `occupy` on a tile are then contained in the tile's flags.
pub proof fn law_occupy_contains(cell: u8, flags: u8)
    ensures
        (cell | flags) & flags == flags,
{
    assert((cell | flags) & flags == flags) by (bit_vector);
}

/// Occupying a tile twice with the same flags is the same as once.
pub proof fn law_occupy_idempotent(cell: u8, flags: u8)
    ensures
        (cell | flags) | flags == cell | flags,
{
    assert((cell | flags) | flags == cell | flags) by (bit_vector);
}

/// After `vacate`, none of the vacated flags is set on the tile.
pub proof fn law_vacate_clears(cell: u8, flags: u8)
    requires
        flags & all_bits() == flags,
    ensures
        (cell & (!flags & all_bits())) & flags == 0,
{
    assert((cell & (!flags & 7u8)) & flags == 0) by (bit_vector);
}

/// Vacating a tile twice with the same flags is the same as once.
pub proof fn law_vacate_idempotent(cell: u8, flags: u8)
    ensures
        (cell & (!flags & all_bits())) & (!flags & all_bits()) == cell & (!flags & all_bits()),
{
    assert((cell & (!flags & 7u8)) & (!flags & 7u8) == cell & (!flags & 7u8)) by (bit_vector);
}

/// Vacating flags that were just occupied on a tile that had none of them
/// restores the tile.
pub proof fn law_vacate_undoes_occupy(cell: u8, flags: u8)
    requires
        cell & flags == 0,
        cell & all_bits() == cell,
    ensures
        (cell | flags) & (!flags & all_bits()) == cell,
{
    assert((cell & flags == 0u8 && cell & 7u8 == cell) ==> (cell | flags) & (!flags & 7u8) == cell) by (bit_vector);
}


/// After `occupy`, the tile's flags (as `get` reads them) contain the
/// occupied flags; a second `occupy` with the same flags changes nothing.
pub proof fn law_occupy_then_get(a: OccupancyMap, b: OccupancyMap, c: OccupancyMap, tile: TileId, flags: u8)
    requires
        a.cfg().contains(tile),
        b.cfg() == a.cfg(),
        occupied_after(a, b, tile, flags),
        occupied_after(b, c, tile, flags),
    ensures
        b.cell(tile) & flags == flags,
        forall|t: TileId| #[trigger] c.cell(t) == b.cell(t),
{
    law_occupy_contains(a.cell(tile), flags);
    assert forall|t: TileId| #[trigger] c.cell(t) == b.cell(t) by {
        if t == tile {
            law_occupy_idempotent(a.cell(tile), flags);
        }
    }
}

/// After `vacate`, the tile's flags contain none of the vacated flags; a
/// second `vacate` with the same flags changes nothing.
pub proof fn law_vacate_then_get(a: OccupancyMap, b: OccupancyMap, c: OccupancyMap, tile: TileId, flags: u8)
    requires
        flags & all_bits() == flags,
        a.cfg().contains(tile),
        b.cfg() == a.cfg(),
        vacated_after(a, b, tile, flags),
        vacated_after(b, c, tile, flags),
    ensures
        b.cell(tile) & flags == 0,
        forall|t: TileId| #[trigger] c.cell(t) == b.cell(t),
{
    law_vacate_clears(a.cell(tile), flags);
    assert forall|t: TileId| #[trigger] c.cell(t) == b.cell(t) by {
        if t == tile {
            law_vacate_idempotent(a.cell(tile), flags);
        }
    }
}

} // verus!
