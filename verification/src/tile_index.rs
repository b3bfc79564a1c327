//! Reverse lookup from tile to the id standing on it.
use vstd::prelude::*;
use crate::grid::{Grid2D, GridConfig, TileId};
use crate::ids::SimId;

verus! {

/// At most one id per tile.
#[derive(Debug)]
pub struct TileMapIndex<T>(pub Grid2D<Option<T>>);

impl<T: SimId> TileMapIndex<T> {
    pub open spec fn wf(&self) -> bool {
        self.0.wf()
    }

    /// The grid configuration.
    pub open spec fn cfg(&self) -> GridConfig {
        self.0.cfg
    }

    /// The id recorded at `t`; `None` outside the grid.
    pub open spec fn at(&self, t: TileId) -> Option<T> {
        if self.0.cfg.contains(t) {
            self.0.at(t)
        } else {
            None
        }
    }

    /// An index over `cfg` with no ids.
    pub fn new(cfg: GridConfig) -> (r: Self)
        requires
            cfg.width * cfg.height <= u32::MAX,
        ensures
            r.wf(),
            r.cfg() == cfg,
            forall|t: TileId| r.at(t) is None,
    {
        let r = TileMapIndex(Grid2D::new(cfg, None));
        proof {
            assert forall|t: TileId| r.at(t) is None by {
                if cfg.contains(t) {
                    crate::grid::lemma_flat_in_range(cfg, t);
                }
            }
        }
        r
    }

    /// The id at `tile`, if any.
    pub fn get(&self, tile: TileId) -> (r: Option<T>)
        requires
            self.wf(),
        ensures
            r == self.at(tile),
    {
        match self.0.get(tile) {
            Some(v) => *v,
            None => None,
        }
    }

    /// Record `id` at an in-bounds `tile`; out-of-bounds tiles are ignored.
    pub fn set(&mut self, tile: TileId, id: T)
        requires
            old(self).wf(),
        ensures
            final(self).wf(),
            final(self).cfg() == old(self).cfg(),
            forall|t: TileId|
                #[trigger] final(self).at(t) == if t == tile && old(self).cfg().contains(tile) {
                    Some(id)
                } else {
                    old(self).at(t)
                },
    {
        self.0.set(tile, Some(id));
        proof {
            self.lemma_update_frame(*old(self), tile, Some(id));
        }
    }

    /// Clear `tile` if it holds an id, which must be `id`; returns `Some(id)` when
    /// something was cleared.
    pub fn remove(&mut self, tile: TileId, id: T) -> (r: Option<T>)
        requires
            old(self).wf(),
            old(self).at(tile) matches Some(found) ==> found == id,
        ensures
            final(self).wf(),
            final(self).cfg() == old(self).cfg(),
            r == old(self).at(tile),
            forall|t: TileId|
                #[trigger] final(self).at(t) == if t == tile {
                    None
                } else {
                    old(self).at(t)
                },
    {
        let found = self.get(tile);
        match found {
            Some(f) => {
                self.0.set(tile, None);
                proof {
                    self.lemma_update_frame(*old(self), tile, None);
                }
                Some(id)
            },
            None => {
                proof {
                    assert forall|t: TileId| #[trigger] self.at(t) == if t == tile {
                        None
                    } else {
                        old(self).at(t)
                    } by {}
                }
                None
            },
        }
    }

    /// Move `id` from the tile `from` refers to (when given) to `to`: that tile
    /// is cleared, `to` set, and the caller's tile updated to `to`.
    pub fn move_id(&mut self, from: Option<&mut TileId>, to: TileId, id: T)
        requires
            old(self).wf(),
            from matches Some(f) ==> (old(self).at(*f) matches Some(found) ==> found == id),
        ensures
            final(self).wf(),
            final(self).cfg() == old(self).cfg(),
            from matches Some(f) ==> *final(f) == to,
            forall|t: TileId|
                #[trigger] final(self).at(t) == if t == to && old(self).cfg().contains(to) {
                    Some(id)
                } else if (from matches Some(f) && *f == t) {
                    None
                } else {
                    old(self).at(t)
                },
    {
        if let Some(f) = from {
            self.remove(*f, id);
            *f = to;
        }
        self.set(to, id);
    }

    /// Record each id at its tile, in order.
    pub fn sync(&mut self, positions: &Vec<(TileId, T)>)
        requires
            old(self).wf(),
        ensures
            final(self).wf(),
            final(self).cfg() == old(self).cfg(),
            forall|k: int|
                #![trigger positions@[k]]
                0 <= k < positions@.len() && old(self).cfg().contains(positions@[k].0)
                    && last_write(positions@, k, positions@.len() as int)
                    ==> final(self).at(positions@[k].0) == Some(positions@[k].1),
    {
        let mut i: usize = 0;
        while i < positions.len()
            invariant
                0 <= i <= positions@.len(),
                self.wf(),
                self.cfg() == old(self).cfg(),
                forall|k: int|
                    #![trigger positions@[k]]
                    0 <= k < i && old(self).cfg().contains(positions@[k].0) && last_write(
                        positions@,
                        k,
                        i as int,
                    ) ==> self.at(positions@[k].0) == Some(positions@[k].1),
            decreases positions@.len() - i,
        {
            let (t, id) = positions[i];
            self.set(t, id);
            i = i + 1;
        }
    }

    proof fn lemma_update_frame(self, old_idx: Self, tile: TileId, v: Option<T>)
        requires
            old_idx.wf(),
            self.0.cfg == old_idx.0.cfg,
            self.0.data@ == if old_idx.0.cfg.contains(tile) {
                old_idx.0.data@.update(old_idx.0.cfg.flat(tile), v)
            } else {
                old_idx.0.data@
            },
        ensures
            forall|t: TileId|
                #[trigger] self.at(t) == if t == tile && old_idx.cfg().contains(tile) {
                    v
                } else {
                    old_idx.at(t)
                },
    {
        let cfg = old_idx.0.cfg;
        assert forall|t: TileId|
            #[trigger] self.at(t) == if t == tile && old_idx.cfg().contains(tile) {
                v
            } else {
                old_idx.at(t)
            } by {
            if cfg.contains(t) {
                crate::grid::lemma_flat_in_range(cfg, t);
                if cfg.contains(tile) {
                    crate::grid::lemma_flat_in_range(cfg, tile);
                    if t != tile {
                        crate::grid::lemma_flat_injective(cfg, t, tile);
                        assert(self.0.data@[cfg.flat(t)] == old_idx.0.data@[cfg.flat(t)]);
                    } else {
                        assert(self.0.data@[cfg.flat(t)] == v);
                    }
                } else {
                    assert(self.0.data@ == old_idx.0.data@);
                }
            }
        }
    }
}

/// No entry after `k` and before `end` writes the same tile as entry `k`.
pub open spec fn last_write<T>(ps: Seq<(TileId, T)>, k: int, end: int) -> bool {
    forall|j: int| k < j < end ==> ps[j].0 != ps[k].0
}

/// Record each id at its position (the positions that changed this step).
pub fn sync_tile_index<T: SimId>(idx: &mut TileMapIndex<T>, positions: &Vec<(TileId, T)>)
    requires
        old(idx).wf(),
    ensures
        final(idx).wf(),
        final(idx).cfg() == old(idx).cfg(),
        forall|k: int|
            #![trigger positions@[k]]
            0 <= k < positions@.len() && old(idx).cfg().contains(positions@[k].0) && last_write(
                positions@,
                k,
                positions@.len() as int,
            ) ==> final(idx).at(positions@[k].0) == Some(positions@[k].1),
{
    idx.sync(positions);
}


/// `b` is `a` with `id` recorded at `tile` (when `tile` is on the grid).
pub open spec fn tiles_set<T: SimId>(a: TileMapIndex<T>, b: TileMapIndex<T>, tile: TileId, id: T) -> bool {
    &&& b.wf()
    &&& b.cfg() == a.cfg()
    &&& forall|t: TileId|
        #[trigger] b.at(t) == if t == tile && a.cfg().contains(tile) {
            Some(id)
        } else {
            a.at(t)
        }
}

/// `b` is `a` with `tile` cleared.
pub open spec fn tiles_cleared<T: SimId>(a: TileMapIndex<T>, b: TileMapIndex<T>, tile: TileId) -> bool {
    &&& b.wf()
    &&& b.cfg() == a.cfg()
    &&& forall|t: TileId| #[trigger] b.at(t) == if t == tile { None } else { a.at(t) }
}

/// `b` is `a` with `id` moved from `from` to `to`.
pub open spec fn tiles_moved<T: SimId>(
    a: TileMapIndex<T>,
    b: TileMapIndex<T>,
    from: TileId,
    to: TileId,
    id: T,
) -> bool {
    &&& b.wf()
    &&& b.cfg() == a.cfg()
    &&& forall|t: TileId|
        #[trigger] b.at(t) == if t == to && a.cfg().contains(to) {
            Some(id)
        } else if t == from {
            None
        } else {
            a.at(t)
        }
}

// ---- laws ----

/// After recording `id` at an in-bounds tile, `get` of that tile gives `id`
/// and every other tile is unchanged.
pub proof fn law_set_then_get<T: SimId>(a: TileMapIndex<T>, b: TileMapIndex<T>, tile: TileId, id: T, other: TileId)
    requires
        tiles_set(a, b, tile, id),
        a.cfg().contains(tile),
        other != tile,
    ensures
        b.at(tile) == Some(id),
        b.at(other) == a.at(other),
{
}

/// After moving `id` between two different tiles, the new tile holds it and
/// the old one is empty.
pub proof fn law_move_then_get<T: SimId>(a: TileMapIndex<T>, b: TileMapIndex<T>, from: TileId, to: TileId, id: T)
    requires
        tiles_moved(a, b, from, to, id),
        a.cfg().contains(to),
        from != to,
    ensures
        b.at(to) == Some(id),
        b.at(from) is None,
{
}

/// Recording an id and then clearing its tile leaves the tile empty and the
/// rest as before the recording.
pub proof fn law_set_then_clear<T: SimId>(
    a: TileMapIndex<T>,
    b: TileMapIndex<T>,
    c: TileMapIndex<T>,
    tile: TileId,
    id: T,
)
    requires
        tiles_set(a, b, tile, id),
        tiles_cleared(b, c, tile),
    ensures
        c.at(tile) is None,
        forall|t: TileId| t != tile ==> #[trigger] c.at(t) == a.at(t),
{
}

} // verus!
