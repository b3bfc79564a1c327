//! The game world: pawns, items and fixtures with their components, the id and
//! tile indices and the task board.
use vstd::prelude::*;
use crate::components::{
    ConstructionSite, Fixture, FixtureKind, Harvestable, Inventory, Item, ItemJoined, ItemKind, ItemRelation, Pawn,
    fixture_kind_text,
};
use crate::text::{nat_decimal, u64_decimal};
use crate::grid::{Grid2D, GridConfig, TileId};
use crate::ids::{Entity, FixtureId, IdIndex, ItemId, PawnId, next_alloc};
use crate::tasks::{Job, JobKind, TaskBoard, WorkPriority};
use crate::scenario::{MapDef, TileDef};
use crate::tile_index::{TileMapIndex, tiles_set};

verus! {

/// The map: its size and which tiles can be walked on.
#[derive(Debug, Clone)]
pub struct WorldGrid {
    pub cfg: GridConfig,
    pub walkable: Grid2D<bool>,
}

/// A pawn with its position, job, work priorities and display name.
#[derive(Debug)]
pub struct PawnEntity {
    pub entity: Entity,
    pub name: String,
    pub pawn: Pawn,
    pub pos: TileId,
    pub job: Job,
    pub priorities: WorkPriority,
}

/// An item with where it is and its display name.
#[derive(Debug)]
pub struct ItemEntity {
    pub entity: Entity,
    pub name: String,
    pub item: Item,
    pub relation: ItemRelation,
}

/// A fixture with its position, optional harvest and construction state, and
/// display name.
#[derive(Debug)]
pub struct FixtureEntity {
    pub entity: Entity,
    pub name: String,
    pub fixture: Fixture,
    pub pos: TileId,
    pub harvestable: Option<Harvestable>,
    pub site: Option<ConstructionSite>,
}

pub open spec fn pawn_ids_unique(s: Seq<PawnEntity>) -> bool {
    forall|i: int, j: int| 0 <= i < j < s.len() ==> s[i].pawn.id != s[j].pawn.id
}

pub open spec fn item_ids_unique(s: Seq<ItemEntity>) -> bool {
    forall|i: int, j: int| 0 <= i < j < s.len() ==> s[i].item.id != s[j].item.id
}

pub open spec fn fixture_ids_unique(s: Seq<FixtureEntity>) -> bool {
    forall|i: int, j: int| 0 <= i < j < s.len() ==> s[i].fixture.id != s[j].fixture.id
}

/// Position of the pawn with id `id`.
pub open spec fn pawn_at(s: Seq<PawnEntity>, id: PawnId) -> int {
    choose|i: int| 0 <= i < s.len() && s[i].pawn.id == id
}

pub open spec fn has_pawn(s: Seq<PawnEntity>, id: PawnId) -> bool {
    exists|i: int| 0 <= i < s.len() && s[i].pawn.id == id
}

/// Position of the item with id `id`.
pub open spec fn item_at(s: Seq<ItemEntity>, id: ItemId) -> int {
    choose|i: int| 0 <= i < s.len() && s[i].item.id == id
}

pub open spec fn has_item(s: Seq<ItemEntity>, id: ItemId) -> bool {
    exists|i: int| 0 <= i < s.len() && s[i].item.id == id
}

/// Position of the fixture with id `id`.
pub open spec fn fixture_at(s: Seq<FixtureEntity>, id: FixtureId) -> int {
    choose|i: int| 0 <= i < s.len() && s[i].fixture.id == id
}

pub open spec fn has_fixture(s: Seq<FixtureEntity>, id: FixtureId) -> bool {
    exists|i: int| 0 <= i < s.len() && s[i].fixture.id == id
}

/// The simulation world.
#[derive(Debug)]
pub struct SimWorld {
    pub pawns: Vec<PawnEntity>,
    pub items: Vec<ItemEntity>,
    pub fixtures: Vec<FixtureEntity>,
    pub pawn_index: IdIndex<PawnId>,
    pub item_index: IdIndex<ItemId>,
    pub fixture_index: IdIndex<FixtureId>,
    pub pawn_tiles: TileMapIndex<PawnId>,
    pub item_tiles: TileMapIndex<ItemId>,
    pub fixture_tiles: TileMapIndex<FixtureId>,
    pub grid: WorldGrid,
    pub task_board: TaskBoard,
    pub next_entity: u64,
    pub scenario_seed: Option<u64>,
}

impl SimWorld {
    /// Ids are unique within each kind of entity, the tile indices cover the
    /// map, and the task board is well formed.
    pub open spec fn wf(&self) -> bool {
        &&& pawn_ids_unique(self.pawns@)
        &&& item_ids_unique(self.items@)
        &&& fixture_ids_unique(self.fixtures@)
        &&& self.pawn_tiles.wf()
        &&& self.item_tiles.wf()
        &&& self.fixture_tiles.wf()
        &&& self.pawn_tiles.cfg() == self.grid.cfg
        &&& self.item_tiles.cfg() == self.grid.cfg
        &&& self.fixture_tiles.cfg() == self.grid.cfg
        &&& self.grid.walkable.wf()
        &&& self.grid.walkable.cfg == self.grid.cfg
        &&& self.task_board.wf()
        &&& forall|i: int| 0 <= i < self.items@.len() ==> self.item_index.has(#[trigger] self.items@[i].item.id)
        &&& forall|i: int| 0 <= i < self.fixtures@.len() ==> self.fixture_index.has(#[trigger] self.fixtures@[i].fixture.id)
        &&& forall|i: int| 0 <= i < self.pawns@.len() ==> self.pawn_index.has(#[trigger] self.pawns@[i].pawn.id)
    }

    /// An empty world on a map of `cfg` where every tile can be walked on.
    pub fn new(cfg: GridConfig) -> (w: Self)
        requires
            cfg.width * cfg.height <= u32::MAX,
        ensures
            w.wf(),
            w.pawns@.len() == 0,
            w.items@.len() == 0,
            w.fixtures@.len() == 0,
            w.grid.cfg == cfg,
            w.task_board.tasks@.len() == 0,
            forall|t: TileId| w.pawn_tiles.at(t) is None && w.item_tiles.at(t) is None
                && w.fixture_tiles.at(t) is None,
            w.pawn_index.view() == Map::<u64, Option<Entity>>::empty(),
            w.item_index.view() == Map::<u64, Option<Entity>>::empty(),
            w.fixture_index.view() == Map::<u64, Option<Entity>>::empty(),
            w.next_entity == 0,
    {
        SimWorld {
            pawns: Vec::new(),
            items: Vec::new(),
            fixtures: Vec::new(),
            pawn_index: IdIndex::new(),
            item_index: IdIndex::new(),
            fixture_index: IdIndex::new(),
            pawn_tiles: TileMapIndex::new(cfg),
            item_tiles: TileMapIndex::new(cfg),
            fixture_tiles: TileMapIndex::new(cfg),
            grid: WorldGrid { cfg, walkable: Grid2D::new(cfg, true) },
            task_board: TaskBoard::new(),
            next_entity: 0,
            scenario_seed: None,
        }
    }

    /// A fresh entity handle.
    pub fn new_entity(&mut self) -> (e: Entity)
        requires
            old(self).next_entity < u64::MAX,
        ensures
            e.0 == old(self).next_entity,
            final(self).next_entity == old(self).next_entity + 1,
            final(self).pawns == old(self).pawns,
            final(self).items == old(self).items,
            final(self).fixtures == old(self).fixtures,
            final(self).pawn_index == old(self).pawn_index,
            final(self).item_index == old(self).item_index,
            final(self).fixture_index == old(self).fixture_index,
            final(self).pawn_tiles == old(self).pawn_tiles,
            final(self).item_tiles == old(self).item_tiles,
            final(self).fixture_tiles == old(self).fixture_tiles,
            final(self).grid == old(self).grid,
            final(self).task_board == old(self).task_board,
            final(self).scenario_seed == old(self).scenario_seed,
    {
        let e = Entity(self.next_entity);
        self.next_entity = self.next_entity + 1;
        e
    }

    /// Position of the pawn with id `id`.
    pub fn find_pawn(&self, id: PawnId) -> (r: Option<usize>)
        requires
            pawn_ids_unique(self.pawns@),
        ensures
            r matches Some(i) ==> i < self.pawns@.len() && self.pawns@[i as int].pawn.id == id
                && pawn_at(self.pawns@, id) == i,
            r is None ==> !has_pawn(self.pawns@, id),
    {
        let mut i: usize = 0;
        while i < self.pawns.len()
            invariant
                i <= self.pawns@.len(),
                forall|j: int| 0 <= j < i ==> self.pawns@[j].pawn.id != id,
                pawn_ids_unique(self.pawns@),
            decreases self.pawns@.len() - i,
        {
            if self.pawns[i].pawn.id.0 == id.0 {
                proof {
                    let k = pawn_at(self.pawns@, id);
                    assert(self.pawns@[i as int].pawn.id == id);
                    assert(0 <= k < self.pawns@.len() && self.pawns@[k].pawn.id == id);
                    if k < i {
                        assert(false);
                    } else if k > i {
                        assert(self.pawns@[i as int].pawn.id != self.pawns@[k].pawn.id);
                    }
                }
                return Some(i);
            }
            i = i + 1;
        }
        None
    }

    /// Position of the item with id `id`.
    pub fn find_item(&self, id: ItemId) -> (r: Option<usize>)
        requires
            item_ids_unique(self.items@),
        ensures
            r matches Some(i) ==> i < self.items@.len() && self.items@[i as int].item.id == id
                && item_at(self.items@, id) == i,
            r is None ==> !has_item(self.items@, id),
    {
        let mut i: usize = 0;
        while i < self.items.len()
            invariant
                i <= self.items@.len(),
                forall|j: int| 0 <= j < i ==> self.items@[j].item.id != id,
                item_ids_unique(self.items@),
            decreases self.items@.len() - i,
        {
            if self.items[i].item.id.0 == id.0 {
                proof {
                    let k = item_at(self.items@, id);
                    assert(self.items@[i as int].item.id == id);
                    assert(0 <= k < self.items@.len() && self.items@[k].item.id == id);
                    if k < i {
                        assert(false);
                    } else if k > i {
                        assert(self.items@[i as int].item.id != self.items@[k].item.id);
                    }
                }
                return Some(i);
            }
            i = i + 1;
        }
        None
    }

    /// Position of the fixture with id `id`.
    pub fn find_fixture(&self, id: FixtureId) -> (r: Option<usize>)
        requires
            fixture_ids_unique(self.fixtures@),
        ensures
            r matches Some(i) ==> i < self.fixtures@.len() && self.fixtures@[i as int].fixture.id
                == id && fixture_at(self.fixtures@, id) == i,
            r is None ==> !has_fixture(self.fixtures@, id),
    {
        let mut i: usize = 0;
        while i < self.fixtures.len()
            invariant
                i <= self.fixtures@.len(),
                forall|j: int| 0 <= j < i ==> self.fixtures@[j].fixture.id != id,
                fixture_ids_unique(self.fixtures@),
            decreases self.fixtures@.len() - i,
        {
            if self.fixtures[i].fixture.id.0 == id.0 {
                proof {
                    let k = fixture_at(self.fixtures@, id);
                    assert(self.fixtures@[i as int].fixture.id == id);
                    assert(0 <= k < self.fixtures@.len() && self.fixtures@[k].fixture.id == id);
                    if k < i {
                        assert(false);
                    } else if k > i {
                        assert(self.fixtures@[i as int].fixture.id != self.fixtures@[k].fixture.id);
                    }
                }
                return Some(i);
            }
            i = i + 1;
        }
        None
    }
}


/// Which parts of the world an operation may change.
#[derive(Debug, Clone, Copy)]
pub struct Touch {
    pub pawns: bool,
    pub items: bool,
    pub fixtures: bool,
    pub item_index: bool,
    pub fixture_index: bool,
    pub pawn_tiles: bool,
    pub item_tiles: bool,
    pub fixture_tiles: bool,
    pub entities: bool,
    pub task_board: bool,
}

/// Nothing may change.
pub open spec fn touch_none() -> Touch {
    Touch {
        pawns: false,
        items: false,
        fixtures: false,
        item_index: false,
        fixture_index: false,
        pawn_tiles: false,
        item_tiles: false,
        fixture_tiles: false,
        entities: false,
        task_board: false,
    }
}

/// `b` equals `a` in every part that `t` does not mark; the map, the pawn
/// index and the seed never change.
pub open spec fn frame(a: &SimWorld, b: &SimWorld, t: Touch) -> bool {
    &&& (!t.pawns ==> b.pawns@ == a.pawns@)
    &&& (!t.items ==> b.items@ == a.items@)
    &&& (!t.fixtures ==> b.fixtures@ == a.fixtures@)
    &&& (!t.item_index ==> b.item_index == a.item_index)
    &&& (!t.fixture_index ==> b.fixture_index == a.fixture_index)
    &&& (!t.pawn_tiles ==> b.pawn_tiles == a.pawn_tiles)
    &&& (!t.item_tiles ==> b.item_tiles == a.item_tiles)
    &&& (!t.fixture_tiles ==> b.fixture_tiles == a.fixture_tiles)
    &&& (!t.entities ==> b.next_entity == a.next_entity)
    &&& (!t.task_board ==> b.task_board == a.task_board)
    &&& b.pawn_index == a.pawn_index
    &&& b.grid == a.grid
    &&& b.scenario_seed == a.scenario_seed
}


/// The display name of a spawned fixture: its kind, '#', and its id.
pub open spec fn fixture_name(kind: FixtureKind, id: FixtureId) -> Seq<char> {
    fixture_kind_text(kind) + "#"@ + nat_decimal(id.0 as nat)
}

/// The display name of a harvested berry: "Berry#" and its id.
pub open spec fn berry_name(id: ItemId) -> Seq<char> {
    "Berry"@ + "#"@ + nat_decimal(id.0 as nat)
}

/// `f` is the fixture record that spawning `kind` at `pos` with id `id` and entity `e`
/// creates: empty inventory, the given extra state.
pub open spec fn spawned_fixture(
    f: FixtureEntity,
    id: FixtureId,
    e: Entity,
    kind: FixtureKind,
    pos: TileId,
    harvestable: Option<Harvestable>,
    site: Option<ConstructionSite>,
) -> bool {
    &&& f.entity == e
    &&& f.name@ == fixture_name(kind, id)
    &&& f.fixture.id == id
    &&& f.fixture.kind == kind
    &&& f.fixture.inventory@ == Seq::<(ItemId, ItemKind)>::empty()
    &&& f.pos == pos
    &&& f.harvestable == harvestable
    &&& f.site == site
}

/// Building a display name from a prefix and a number.
pub(crate) fn name_with_id(prefix: &str, n: u64) -> (r: String)
    ensures
        r@ == prefix@ + "#"@ + nat_decimal(n as nat),
{
    let mut s = String::from_str(prefix);
    s.append("#");
    let d = u64_decimal(n);
    s.append(d.as_str());
    s
}

impl SimWorld {
    /// Spawn a fixture of `kind` at `pos` under a fresh id, registered in the
    /// fixture index and recorded in the fixture tile index.
    pub fn spawn_fixture(
        &mut self,
        provided: Option<FixtureId>,
        prefix: &str,
        kind: FixtureKind,
        pos: TileId,
        inventory: Inventory,
        harvestable: Option<Harvestable>,
        site: Option<ConstructionSite>,
    ) -> (id: FixtureId)
        requires
            old(self).wf(),
            provided matches Some(p) ==> !old(self).fixture_index.has(p),
            provided is None ==> !old(self).fixture_index.view().contains_key(u64::MAX),
            old(self).next_entity < u64::MAX,
        ensures
            final(self).wf(),
            provided matches Some(p) ==> id == p,
            provided is None ==> id.0 == next_alloc(old(self).fixture_index.view()),
            !has_fixture(old(self).fixtures@, id),
            final(self).fixtures@.len() == old(self).fixtures@.len() + 1,
            final(self).fixtures@.drop_last() == old(self).fixtures@,
            final(self).fixtures@.last().entity == Entity(old(self).next_entity),
            final(self).fixtures@.last().name@ == prefix@ + "#"@ + nat_decimal(id.0 as nat),
            final(self).fixtures@.last().fixture == (Fixture { id, kind, inventory }),
            final(self).fixtures@.last().pos == pos,
            final(self).fixtures@.last().harvestable == harvestable,
            final(self).fixtures@.last().site == site,
            final(self).fixture_index.view() == old(self).fixture_index.view().insert(
                id.0,
                Some(Entity(old(self).next_entity)),
            ),
            tiles_set(old(self).fixture_tiles, final(self).fixture_tiles, pos, id),
            final(self).next_entity == old(self).next_entity + 1,
            frame(
                old(self),
                final(self),
                (Touch {
                    fixtures: true,
                    fixture_index: true,
                    fixture_tiles: true,
                    entities: true,
                    ..touch_none()
                }),
            ),
    {
        let id = self.fixture_index.alloc_id(provided);
        let e = self.new_entity();
        let name = name_with_id(prefix, id.0);
        self.fixture_index.insert(id, e);
        self.fixture_tiles.move_id(None, pos, id);
        let ghost before = self.fixtures@;
        self.fixtures.push(
            FixtureEntity {
                entity: e,
                name,
                fixture: Fixture { id, kind, inventory },
                pos,
                harvestable,
                site,
            },
        );
        proof {
            assert(self.fixtures@.drop_last() =~= before);
            assert forall|i: int, j: int|
                0 <= i < j < self.fixtures@.len() implies self.fixtures@[i].fixture.id
                != self.fixtures@[j].fixture.id by {
                if j == before.len() {
                    assert(self.fixture_index.has(before[i].fixture.id));
                }
            }
            assert forall|i: int| 0 <= i < self.fixtures@.len() implies self.fixture_index.has(
                #[trigger] self.fixtures@[i].fixture.id,
            ) by {
                if i < before.len() {
                    assert(old(self).fixture_index.has(before[i].fixture.id));
                }
            }
            if has_fixture(before, id) {
                let k = choose|k: int| 0 <= k < before.len() && before[k].fixture.id == id;
                assert(old(self).fixture_index.has(before[k].fixture.id));
            }
        }
        id
    }

    /// Spawn a new item under a fresh id, registered in the item index.
    pub fn spawn_item(
        &mut self,
        provided: Option<ItemId>,
        prefix: &str,
        kind: ItemKind,
        qty: u32,
        relation: ItemRelation,
    ) -> (id: ItemId)
        requires
            old(self).wf(),
            provided matches Some(p) ==> !old(self).item_index.has(p),
            provided is None ==> !old(self).item_index.view().contains_key(u64::MAX),
            old(self).next_entity < u64::MAX,
        ensures
            final(self).wf(),
            provided matches Some(p) ==> id == p,
            provided is None ==> id.0 == next_alloc(old(self).item_index.view()),
            provided is None ==> id.0 >= 1000,
            provided is None ==> id.0 <= 1001 || old(self).item_index.view().contains_key((id.0 - 1) as u64),
            !has_item(old(self).items@, id),
            !old(self).item_index.view().contains_key(id.0),
            final(self).items@.len() == old(self).items@.len() + 1,
            final(self).items@.drop_last() == old(self).items@,
            final(self).items@.last().entity == Entity(old(self).next_entity),
            final(self).items@.last().name@ == prefix@ + "#"@ + nat_decimal(id.0 as nat),
            final(self).items@.last().item == (Item { id, kind, qty }),
            final(self).items@.last().relation == relation,
            final(self).item_index.view() == old(self).item_index.view().insert(
                id.0,
                Some(Entity(old(self).next_entity)),
            ),
            final(self).next_entity == old(self).next_entity + 1,
            frame(
                old(self),
                final(self),
                (Touch { items: true, item_index: true, entities: true, ..touch_none() }),
            ),
    {
        let id = self.item_index.alloc_id(provided);
        let e = self.new_entity();
        let name = name_with_id(prefix, id.0);
        self.item_index.insert(id, e);
        let ghost before = self.items@;
        self.items.push(ItemEntity { entity: e, name, item: Item { id, kind, qty }, relation });
        proof {
            assert(self.items@.drop_last() =~= before);
            assert forall|i: int, j: int|
                0 <= i < j < self.items@.len() implies self.items@[i].item.id
                != self.items@[j].item.id by {
                if j == before.len() {
                    assert(self.item_index.has(before[i].item.id));
                }
            }
            assert forall|i: int| 0 <= i < self.items@.len() implies self.item_index.has(
                #[trigger] self.items@[i].item.id,
            ) by {
                if i < before.len() {
                    assert(old(self).item_index.has(before[i].item.id));
                }
            }
            if has_item(before, id) {
                let k = choose|k: int| 0 <= k < before.len() && before[k].item.id == id;
                assert(old(self).item_index.has(before[k].item.id));
            }
        }
        id
    }
}

impl SimWorld {
    /// Record `pawn`, whose id is registered but not yet attached, at `pos` under
    /// a fresh entity with no job, and mark its tile.
    pub fn add_pawn(&mut self, name: String, pawn: Pawn, pos: TileId, priorities: WorkPriority) -> (e: Entity)
        requires
            old(self).wf(),
            old(self).pawn_index.has(pawn.id),
            old(self).pawn_index.view()[pawn.id.0] is None,
            !has_pawn(old(self).pawns@, pawn.id),
            old(self).next_entity < u64::MAX,
        ensures
            final(self).wf(),
            e == Entity(old(self).next_entity),
            final(self).pawns@.len() == old(self).pawns@.len() + 1,
            final(self).pawns@.drop_last() == old(self).pawns@,
            final(self).pawns@.last().entity == e,
            final(self).pawns@.last().name == name,
            final(self).pawns@.last().pawn == pawn,
            final(self).pawns@.last().pos == pos,
            final(self).pawns@.last().job.kind == JobKind::Idle,
            final(self).pawns@.last().job.plan is None,
            final(self).pawns@.last().job.retries == 0,
            final(self).pawns@.last().priorities == priorities,
            final(self).pawn_index.view() == old(self).pawn_index.view().insert(pawn.id.0, Some(e)),
            tiles_set(old(self).pawn_tiles, final(self).pawn_tiles, pos, pawn.id),
            final(self).next_entity == old(self).next_entity + 1,
            final(self).items == old(self).items,
            final(self).fixtures == old(self).fixtures,
            final(self).item_index == old(self).item_index,
            final(self).fixture_index == old(self).fixture_index,
            final(self).item_tiles == old(self).item_tiles,
            final(self).fixture_tiles == old(self).fixture_tiles,
            final(self).grid == old(self).grid,
            final(self).task_board == old(self).task_board,
            final(self).scenario_seed == old(self).scenario_seed,
    {
        let e = self.new_entity();
        let id = pawn.id;
        self.pawn_index.insert(id, e);
        self.pawn_tiles.move_id(None, pos, id);
        let ghost before = self.pawns@;
        self.pawns.push(PawnEntity { entity: e, name, pawn, pos, job: Job::idle(), priorities });
        proof {
            assert(self.pawns@.drop_last() =~= before);
            assert forall|i: int, j: int|
                0 <= i < j < self.pawns@.len() implies self.pawns@[i].pawn.id
                != self.pawns@[j].pawn.id by {
                if j == before.len() && self.pawns@[i].pawn.id == id {
                    assert(has_pawn(before, id));
                }
            }
            assert forall|i: int| 0 <= i < self.pawns@.len() implies self.pawn_index.has(
                #[trigger] self.pawns@[i].pawn.id,
            ) by {
                if i < before.len() {
                    assert(old(self).pawn_index.has(before[i].pawn.id));
                }
            }
        }
        e
    }
}

impl SimWorld {
    /// Record `fixture`, whose id is registered but not yet attached, at `pos`
    /// under a fresh entity, and mark its tile.
    pub fn add_fixture(
        &mut self,
        name: String,
        fixture: Fixture,
        pos: TileId,
        harvestable: Option<Harvestable>,
        site: Option<ConstructionSite>,
    ) -> (e: Entity)
        requires
            old(self).wf(),
            old(self).fixture_index.has(fixture.id),
            old(self).fixture_index.view()[fixture.id.0] is None,
            !has_fixture(old(self).fixtures@, fixture.id),
            old(self).next_entity < u64::MAX,
        ensures
            final(self).wf(),
            e == Entity(old(self).next_entity),
            final(self).fixtures@.len() == old(self).fixtures@.len() + 1,
            final(self).fixtures@.drop_last() == old(self).fixtures@,
            final(self).fixtures@.last().entity == e,
            final(self).fixtures@.last().name == name,
            final(self).fixtures@.last().fixture == fixture,
            final(self).fixtures@.last().pos == pos,
            final(self).fixtures@.last().harvestable == harvestable,
            final(self).fixtures@.last().site == site,
            final(self).fixture_index.view() == old(self).fixture_index.view().insert(fixture.id.0, Some(e)),
            tiles_set(old(self).fixture_tiles, final(self).fixture_tiles, pos, fixture.id),
            final(self).next_entity == old(self).next_entity + 1,
            frame(
                old(self),
                final(self),
                (Touch { fixtures: true, fixture_index: true, fixture_tiles: true, entities: true, ..touch_none() }),
            ),
    {
        let e = self.new_entity();
        let id = fixture.id;
        self.fixture_index.insert(id, e);
        self.fixture_tiles.move_id(None, pos, id);
        let ghost before = self.fixtures@;
        self.fixtures.push(FixtureEntity { entity: e, name, fixture, pos, harvestable, site });
        proof {
            assert(self.fixtures@.drop_last() =~= before);
            assert forall|i: int, j: int|
                0 <= i < j < self.fixtures@.len() implies self.fixtures@[i].fixture.id
                != self.fixtures@[j].fixture.id by {
                if j == before.len() && self.fixtures@[i].fixture.id == id {
                    assert(has_fixture(before, id));
                }
            }
            assert forall|i: int| 0 <= i < self.fixtures@.len() implies self.fixture_index.has(
                #[trigger] self.fixtures@[i].fixture.id,
            ) by {
                if i < before.len() {
                    assert(old(self).fixture_index.has(before[i].fixture.id));
                }
            }
        }
        e
    }
}

impl SimWorld {
    /// Record `item`, whose id is registered but not yet attached, under a
    /// fresh entity.
    pub fn add_item(&mut self, name: String, item: Item, relation: ItemRelation) -> (e: Entity)
        requires
            old(self).wf(),
            old(self).item_index.has(item.id),
            old(self).item_index.view()[item.id.0] is None,
            !has_item(old(self).items@, item.id),
            old(self).next_entity < u64::MAX,
        ensures
            final(self).wf(),
            e == Entity(old(self).next_entity),
            final(self).items@.len() == old(self).items@.len() + 1,
            final(self).items@.drop_last() == old(self).items@,
            final(self).items@.last().entity == e,
            final(self).items@.last().name == name,
            final(self).items@.last().item == item,
            final(self).items@.last().relation == relation,
            final(self).item_index.view() == old(self).item_index.view().insert(item.id.0, Some(e)),
            final(self).next_entity == old(self).next_entity + 1,
            frame(old(self), final(self), (Touch { items: true, item_index: true, entities: true, ..touch_none() })),
    {
        let e = self.new_entity();
        let id = item.id;
        self.item_index.insert(id, e);
        let ghost before = self.items@;
        self.items.push(ItemEntity { entity: e, name, item, relation });
        proof {
            assert(self.items@.drop_last() =~= before);
            assert forall|i: int, j: int|
                0 <= i < j < self.items@.len() implies self.items@[i].item.id
                != self.items@[j].item.id by {
                if j == before.len() && self.items@[i].item.id == id {
                    assert(has_item(before, id));
                }
            }
            assert forall|i: int| 0 <= i < self.items@.len() implies self.item_index.has(
                #[trigger] self.items@[i].item.id,
            ) by {
                if i < before.len() {
                    assert(old(self).item_index.has(before[i].item.id));
                }
            }
        }
        e
    }
}

impl Item {
    /// The item together with where it is: its tile when on the ground, the
    /// tile of the pawn carrying it or of the fixture holding it; `None` when
    /// that pawn or fixture is not in the world.
    pub fn join(&self, relation: ItemRelation, world: &SimWorld) -> (r: Option<ItemJoined>)
        requires
            world.wf(),
        ensures
            match relation {
                ItemRelation::OnGround(t) => r == Some(ItemJoined { relation, pos: t, item: *self }),
                ItemRelation::CarriedBy(pid) => if has_pawn(world.pawns@, pid) {
                    r == Some(ItemJoined { relation, pos: world.pawns@[pawn_at(world.pawns@, pid)].pos, item: *self })
                } else {
                    r is None
                },
                ItemRelation::InFixture(fid) => if has_fixture(world.fixtures@, fid) {
                    r == Some(
                        ItemJoined { relation, pos: world.fixtures@[fixture_at(world.fixtures@, fid)].pos, item: *self },
                    )
                } else {
                    r is None
                },
            },
    {
        let item = Item { id: self.id, kind: self.kind, qty: self.qty };
        match relation {
            ItemRelation::OnGround(t) => Some(ItemJoined { relation, pos: t, item }),
            ItemRelation::CarriedBy(pid) => match world.find_pawn(pid) {
                Some(i) => Some(ItemJoined { relation, pos: world.pawns[i].pos, item }),
                None => None,
            },
            ItemRelation::InFixture(fid) => match world.find_fixture(fid) {
                Some(i) => Some(ItemJoined { relation, pos: world.fixtures[i].pos, item }),
                None => None,
            },
        }
    }

    /// `join` for an item that no pawn carries.
    pub fn join_no_pawns(&self, relation: ItemRelation, world: &SimWorld) -> (r: Option<ItemJoined>)
        requires
            world.wf(),
            !(relation is CarriedBy),
        ensures
            match relation {
                ItemRelation::OnGround(t) => r == Some(ItemJoined { relation, pos: t, item: *self }),
                ItemRelation::InFixture(fid) => if has_fixture(world.fixtures@, fid) {
                    r == Some(
                        ItemJoined { relation, pos: world.fixtures@[fixture_at(world.fixtures@, fid)].pos, item: *self },
                    )
                } else {
                    r is None
                },
                ItemRelation::CarriedBy(_) => false,
            },
    {
        self.join(relation, world)
    }
}

impl SimWorld {
    /// Tear the world down: every pawn, item and fixture goes, the id indices
    /// are emptied, the tile indices cleared and the scenario seed forgotten;
    /// the map and the task board stay.
    pub fn cleanup(&mut self)
        requires
            old(self).wf(),
        ensures
            final(self).wf(),
            final(self).pawns@.len() == 0,
            final(self).items@.len() == 0,
            final(self).fixtures@.len() == 0,
            final(self).pawn_index.view() == Map::<u64, Option<Entity>>::empty(),
            final(self).item_index.view() == Map::<u64, Option<Entity>>::empty(),
            final(self).fixture_index.view() == Map::<u64, Option<Entity>>::empty(),
            forall|t: TileId| final(self).pawn_tiles.at(t) is None && final(self).item_tiles.at(t) is None
                && final(self).fixture_tiles.at(t) is None,
            final(self).scenario_seed is None,
            final(self).grid == old(self).grid,
            final(self).task_board == old(self).task_board,
    {
        let cfg = self.grid.cfg;
        self.pawns = Vec::new();
        self.items = Vec::new();
        self.fixtures = Vec::new();
        self.pawn_index.clear();
        self.item_index.clear();
        self.fixture_index.clear();
        self.pawn_tiles = TileMapIndex::new(cfg);
        self.item_tiles = TileMapIndex::new(cfg);
        self.fixture_tiles = TileMapIndex::new(cfg);
        self.scenario_seed = None;
    }
}

impl WorldGrid {
    /// The map of `map`: every tile walkable except as its tile descriptions
    /// say (the last description of a tile wins; tiles off the map are ignored).
    pub fn from_map(map: &MapDef) -> (g: Self)
        requires
            map.size.x * map.size.y <= u32::MAX,
        ensures
            g.cfg == (GridConfig { width: map.size.x, height: map.size.y }),
            g.walkable.wf(),
            g.walkable.cfg == g.cfg,
            forall|t: TileId| g.cfg.contains(t) ==> #[trigger] g.walkable.at(t) == tile_walkable(map.tiles@, t),
    {
        let cfg = GridConfig { width: map.size.x, height: map.size.y };
        let mut walkable = Grid2D::new(cfg, true);
        let mut i: usize = 0;
        assert forall|t: TileId| cfg.contains(t) implies #[trigger] walkable.at(t) == tile_walkable(
            map.tiles@.take(0),
            t,
        ) by {
            crate::grid::lemma_flat_in_range(cfg, t);
        }
        while i < map.tiles.len()
            invariant
                i <= map.tiles@.len(),
                walkable.wf(),
                walkable.cfg == cfg,
                forall|t: TileId| cfg.contains(t) ==> #[trigger] walkable.at(t) == tile_walkable(map.tiles@.take(i as int), t),
            decreases map.tiles@.len() - i,
        {
            let pos = map.tiles[i].pos;
            let w = map.tiles[i].walkable;
            let ghost before = walkable;
            walkable.set(pos, w);
            proof {
                assert(map.tiles@.take(i + 1).drop_last() =~= map.tiles@.take(i as int));
                assert forall|t: TileId| cfg.contains(t) implies #[trigger] walkable.at(t) == tile_walkable(
                    map.tiles@.take(i + 1),
                    t,
                ) by {
                    crate::grid::lemma_flat_in_range(cfg, t);
                    if t == pos {
                        assert(walkable.at(t) == w);
                    } else {
                        if cfg.contains(pos) {
                            crate::grid::lemma_flat_injective(cfg, t, pos);
                            crate::grid::lemma_flat_in_range(cfg, pos);
                            assert(walkable.data@ == before.data@.update(cfg.flat(pos), w));
                            assert(walkable.data@[cfg.flat(t)] == before.data@[cfg.flat(t)]);
                        }
                        assert(walkable.at(t) == before.at(t));
                    }
                }
            }
            i = i + 1;
        }
        assert(map.tiles@.take(map.tiles@.len() as int) =~= map.tiles@);
        WorldGrid { cfg, walkable }
    }
}

/// Whether tile `t` can be walked on after the descriptions `tiles`: the last
/// description of `t` decides, and an undescribed tile can.
pub open spec fn tile_walkable(tiles: Seq<TileDef>, t: TileId) -> bool
    decreases tiles.len(),
{
    if tiles.len() == 0 {
        true
    } else if tiles.last().pos == t {
        tiles.last().walkable
    } else {
        tile_walkable(tiles.drop_last(), t)
    }
}

/// A world whose records keep their ids, whose id indices only grow, and whose
/// tile indices, map and task board stay well formed, is still well formed.
pub proof fn lemma_wf_same_ids(a: &SimWorld, b: &SimWorld)
    requires
        a.wf(),
        b.pawns@.len() == a.pawns@.len(),
        b.items@.len() == a.items@.len(),
        b.fixtures@.len() == a.fixtures@.len(),
        forall|i: int| 0 <= i < a.pawns@.len() ==> #[trigger] b.pawns@[i].pawn.id == a.pawns@[i].pawn.id,
        forall|i: int| 0 <= i < a.items@.len() ==> #[trigger] b.items@[i].item.id == a.items@[i].item.id,
        forall|i: int|
            0 <= i < a.fixtures@.len() ==> #[trigger] b.fixtures@[i].fixture.id == a.fixtures@[i].fixture.id,
        forall|k: u64| a.pawn_index.view().contains_key(k) ==> #[trigger] b.pawn_index.view().contains_key(k),
        forall|k: u64| a.item_index.view().contains_key(k) ==> #[trigger] b.item_index.view().contains_key(k),
        forall|k: u64|
            a.fixture_index.view().contains_key(k) ==> #[trigger] b.fixture_index.view().contains_key(k),
        b.pawn_tiles.wf() && b.pawn_tiles.cfg() == a.pawn_tiles.cfg(),
        b.item_tiles.wf() && b.item_tiles.cfg() == a.item_tiles.cfg(),
        b.fixture_tiles.wf() && b.fixture_tiles.cfg() == a.fixture_tiles.cfg(),
        b.grid == a.grid,
        b.task_board.wf(),
    ensures
        b.wf(),
{
    assert forall|i: int, j: int| 0 <= i < j < b.pawns@.len() implies b.pawns@[i].pawn.id
        != b.pawns@[j].pawn.id by {
        assert(b.pawns@[i].pawn.id == a.pawns@[i].pawn.id);
        assert(b.pawns@[j].pawn.id == a.pawns@[j].pawn.id);
    }
    assert forall|i: int, j: int| 0 <= i < j < b.items@.len() implies b.items@[i].item.id
        != b.items@[j].item.id by {
        assert(b.items@[i].item.id == a.items@[i].item.id);
        assert(b.items@[j].item.id == a.items@[j].item.id);
    }
    assert forall|i: int, j: int| 0 <= i < j < b.fixtures@.len() implies b.fixtures@[i].fixture.id
        != b.fixtures@[j].fixture.id by {
        assert(b.fixtures@[i].fixture.id == a.fixtures@[i].fixture.id);
        assert(b.fixtures@[j].fixture.id == a.fixtures@[j].fixture.id);
    }
    assert forall|i: int| 0 <= i < b.pawns@.len() implies b.pawn_index.has(#[trigger] b.pawns@[i].pawn.id) by {
        assert(a.pawn_index.has(a.pawns@[i].pawn.id));
    }
    assert forall|i: int| 0 <= i < b.items@.len() implies b.item_index.has(#[trigger] b.items@[i].item.id) by {
        assert(a.item_index.has(a.items@[i].item.id));
    }
    assert forall|i: int| 0 <= i < b.fixtures@.len() implies b.fixture_index.has(
        #[trigger] b.fixtures@[i].fixture.id,
    ) by {
        assert(a.fixture_index.has(a.fixtures@[i].fixture.id));
    }
}

/// Removing item record `ii` keeps the world well formed.
pub proof fn lemma_wf_item_removed(a: &SimWorld, b: &SimWorld, ii: int)
    requires
        a.wf(),
        0 <= ii < a.items@.len(),
        b.items@ == a.items@.remove(ii),
        b.pawns@.len() == a.pawns@.len(),
        b.fixtures@.len() == a.fixtures@.len(),
        forall|i: int| 0 <= i < a.pawns@.len() ==> #[trigger] b.pawns@[i].pawn.id == a.pawns@[i].pawn.id,
        forall|i: int|
            0 <= i < a.fixtures@.len() ==> #[trigger] b.fixtures@[i].fixture.id == a.fixtures@[i].fixture.id,
        forall|k: u64| a.pawn_index.view().contains_key(k) ==> #[trigger] b.pawn_index.view().contains_key(k),
        forall|k: u64| a.item_index.view().contains_key(k) ==> #[trigger] b.item_index.view().contains_key(k),
        forall|k: u64|
            a.fixture_index.view().contains_key(k) ==> #[trigger] b.fixture_index.view().contains_key(k),
        b.pawn_tiles.wf() && b.pawn_tiles.cfg() == a.pawn_tiles.cfg(),
        b.item_tiles.wf() && b.item_tiles.cfg() == a.item_tiles.cfg(),
        b.fixture_tiles.wf() && b.fixture_tiles.cfg() == a.fixture_tiles.cfg(),
        b.grid == a.grid,
        b.task_board.wf(),
    ensures
        b.wf(),
{
    assert forall|i: int, j: int| 0 <= i < j < b.pawns@.len() implies b.pawns@[i].pawn.id
        != b.pawns@[j].pawn.id by {
        assert(b.pawns@[i].pawn.id == a.pawns@[i].pawn.id);
        assert(b.pawns@[j].pawn.id == a.pawns@[j].pawn.id);
    }
    assert forall|i: int, j: int| 0 <= i < j < b.items@.len() implies b.items@[i].item.id
        != b.items@[j].item.id by {
        let i2 = if i < ii { i } else { i + 1 };
        let j2 = if j < ii { j } else { j + 1 };
        assert(b.items@[i] == a.items@[i2]);
        assert(b.items@[j] == a.items@[j2]);
    }
    assert forall|i: int, j: int| 0 <= i < j < b.fixtures@.len() implies b.fixtures@[i].fixture.id
        != b.fixtures@[j].fixture.id by {
        assert(b.fixtures@[i].fixture.id == a.fixtures@[i].fixture.id);
        assert(b.fixtures@[j].fixture.id == a.fixtures@[j].fixture.id);
    }
    assert forall|i: int| 0 <= i < b.pawns@.len() implies b.pawn_index.has(#[trigger] b.pawns@[i].pawn.id) by {
        assert(a.pawn_index.has(a.pawns@[i].pawn.id));
    }
    assert forall|i: int| 0 <= i < b.items@.len() implies b.item_index.has(#[trigger] b.items@[i].item.id) by {
        let i2 = if i < ii { i } else { i + 1 };
        assert(b.items@[i] == a.items@[i2]);
        assert(a.item_index.has(a.items@[i2].item.id));
    }
    assert forall|i: int| 0 <= i < b.fixtures@.len() implies b.fixture_index.has(
        #[trigger] b.fixtures@[i].fixture.id,
    ) by {
        assert(a.fixture_index.has(a.fixtures@[i].fixture.id));
    }
}

/// Each pawn record is the entity its id maps to in `m`.
pub open spec fn pawns_indexed(s: Seq<PawnEntity>, m: Map<u64, Option<Entity>>) -> bool {
    forall|i: int|
        #![trigger s[i]]
        0 <= i < s.len() ==> m.contains_key(s[i].pawn.id.0) && m[s[i].pawn.id.0] == Some(s[i].entity)
}

/// Each fixture record is the entity its id maps to in `m`.
pub open spec fn fixtures_indexed(s: Seq<FixtureEntity>, m: Map<u64, Option<Entity>>) -> bool {
    forall|i: int|
        #![trigger s[i]]
        0 <= i < s.len() ==> m.contains_key(s[i].fixture.id.0) && m[s[i].fixture.id.0] == Some(s[i].entity)
}

/// Each item record is the entity its id maps to in `m`.
pub open spec fn items_indexed(s: Seq<ItemEntity>, m: Map<u64, Option<Entity>>) -> bool {
    forall|i: int|
        #![trigger s[i]]
        0 <= i < s.len() ==> m.contains_key(s[i].item.id.0) && m[s[i].item.id.0] == Some(s[i].entity)
}

/// Every record of `w` is the entity its id index names.
pub open spec fn indexed(w: &SimWorld) -> bool {
    &&& pawns_indexed(w.pawns@, w.pawn_index.view())
    &&& fixtures_indexed(w.fixtures@, w.fixture_index.view())
    &&& items_indexed(w.items@, w.item_index.view())
}

/// Registering an id no record has keeps the records indexed.
pub proof fn lemma_pawns_indexed_insert(s: Seq<PawnEntity>, m: Map<u64, Option<Entity>>, k: u64, v: Option<Entity>)
    requires
        pawns_indexed(s, m),
        !m.contains_key(k) || m[k] is None,
    ensures
        pawns_indexed(s, m.insert(k, v)),
{
    assert forall|i: int| 0 <= i < s.len() implies s[i].pawn.id.0 != k by {
        assert(m.contains_key(s[i].pawn.id.0));
    }
}

/// Attaching a new record to its id keeps the records indexed.
pub proof fn lemma_pawns_indexed_push(s: Seq<PawnEntity>, m: Map<u64, Option<Entity>>, x: PawnEntity)
    requires
        pawns_indexed(s, m),
        !m.contains_key(x.pawn.id.0) || m[x.pawn.id.0] is None,
    ensures
        pawns_indexed(s.push(x), m.insert(x.pawn.id.0, Some(x.entity))),
{
    lemma_pawns_indexed_insert(s, m, x.pawn.id.0, Some(x.entity));
    assert forall|i: int| 0 <= i < s.len() + 1 implies #[trigger] s.push(x)[i] == if i < s.len() { s[i] } else { x } by {}
}

/// Registering an id no record has keeps the records indexed.
pub proof fn lemma_fixtures_indexed_insert(s: Seq<FixtureEntity>, m: Map<u64, Option<Entity>>, k: u64, v: Option<Entity>)
    requires
        fixtures_indexed(s, m),
        !m.contains_key(k) || m[k] is None,
    ensures
        fixtures_indexed(s, m.insert(k, v)),
{
    assert forall|i: int| 0 <= i < s.len() implies s[i].fixture.id.0 != k by {
        assert(m.contains_key(s[i].fixture.id.0));
    }
}

/// Attaching a new record to its id keeps the records indexed.
pub proof fn lemma_fixtures_indexed_push(s: Seq<FixtureEntity>, m: Map<u64, Option<Entity>>, x: FixtureEntity)
    requires
        fixtures_indexed(s, m),
        !m.contains_key(x.fixture.id.0) || m[x.fixture.id.0] is None,
    ensures
        fixtures_indexed(s.push(x), m.insert(x.fixture.id.0, Some(x.entity))),
{
    lemma_fixtures_indexed_insert(s, m, x.fixture.id.0, Some(x.entity));
    assert forall|i: int| 0 <= i < s.len() + 1 implies #[trigger] s.push(x)[i] == if i < s.len() { s[i] } else { x } by {}
}

/// Registering an id no record has keeps the records indexed.
pub proof fn lemma_items_indexed_insert(s: Seq<ItemEntity>, m: Map<u64, Option<Entity>>, k: u64, v: Option<Entity>)
    requires
        items_indexed(s, m),
        !m.contains_key(k) || m[k] is None,
    ensures
        items_indexed(s, m.insert(k, v)),
{
    assert forall|i: int| 0 <= i < s.len() implies s[i].item.id.0 != k by {
        assert(m.contains_key(s[i].item.id.0));
    }
}

/// Attaching a new record to its id keeps the records indexed.
pub proof fn lemma_items_indexed_push(s: Seq<ItemEntity>, m: Map<u64, Option<Entity>>, x: ItemEntity)
    requires
        items_indexed(s, m),
        !m.contains_key(x.item.id.0) || m[x.item.id.0] is None,
    ensures
        items_indexed(s.push(x), m.insert(x.item.id.0, Some(x.entity))),
{
    lemma_items_indexed_insert(s, m, x.item.id.0, Some(x.entity));
    assert forall|i: int| 0 <= i < s.len() + 1 implies #[trigger] s.push(x)[i] == if i < s.len() { s[i] } else { x } by {}
}

/// Both coordinates within 2^29 - 1 of the origin: the widest square in which
/// the distance between any two tiles, `|dx| + |dy|`, fits the `i32`
/// arithmetic the simulation does on it.
pub open spec fn tile_bounded(t: TileId) -> bool {
    -536870911 <= t.x <= 536870911 && -536870911 <= t.y <= 536870911
}

/// Every pawn, fixture and item on the ground stands on a bounded tile.
pub open spec fn coords_bounded(w: &SimWorld) -> bool {
    &&& forall|i: int| 0 <= i < w.pawns@.len() ==> tile_bounded(#[trigger] w.pawns@[i].pos)
    &&& forall|i: int| 0 <= i < w.fixtures@.len() ==> tile_bounded(#[trigger] w.fixtures@[i].pos)
    &&& forall|i: int|
        0 <= i < w.items@.len() ==> (#[trigger] w.items@[i].relation matches ItemRelation::OnGround(t)
            ==> tile_bounded(t))
}

/// Distances between bounded tiles fit in `i32`.
pub proof fn lemma_bounded_fits(a: TileId, b: TileId)
    requires
        tile_bounded(a),
        tile_bounded(b),
    ensures
        crate::paths::manhattan_fits(a, b),
{
}

/// Whether a tile is bounded (`tile_bounded`).
pub fn tile_in_bounds(t: TileId) -> (r: bool)
    ensures
        r == tile_bounded(t),
{
    -536870911 <= t.x && t.x <= 536870911 && -536870911 <= t.y && t.y <= 536870911
}

impl SimWorld {
    /// Whether every position is bounded (`coords_bounded`).
    pub fn coords_check(&self) -> (r: bool)
        ensures
            r == coords_bounded(self),
    {
        let mut i: usize = 0;
        while i < self.pawns.len()
            invariant
                i <= self.pawns@.len(),
                forall|j: int| 0 <= j < i ==> tile_bounded(#[trigger] self.pawns@[j].pos),
            decreases self.pawns@.len() - i,
        {
            if !tile_in_bounds(self.pawns[i].pos) {
                return false;
            }
            i = i + 1;
        }
        let mut i: usize = 0;
        while i < self.fixtures.len()
            invariant
                i <= self.fixtures@.len(),
                forall|j: int| 0 <= j < i ==> tile_bounded(#[trigger] self.fixtures@[j].pos),
            decreases self.fixtures@.len() - i,
        {
            if !tile_in_bounds(self.fixtures[i].pos) {
                return false;
            }
            i = i + 1;
        }
        let mut i: usize = 0;
        while i < self.items.len()
            invariant
                i <= self.items@.len(),
                forall|j: int|
                    0 <= j < i ==> (#[trigger] self.items@[j].relation matches ItemRelation::OnGround(t)
                        ==> tile_bounded(t)),
            decreases self.items@.len() - i,
        {
            match self.items[i].relation {
                ItemRelation::OnGround(t) => {
                    if !tile_in_bounds(t) {
                        return false;
                    }
                },
                _ => {},
            }
            i = i + 1;
        }
        proof {
            assert(forall|j: int| 0 <= j < self.pawns@.len() ==> tile_bounded(#[trigger] self.pawns@[j].pos));
        }
        true
    }
}

/// Every pawn working on a task works on one that is on the board.
pub open spec fn jobs_known(w: &SimWorld) -> bool {
    forall|i: int|
        0 <= i < w.pawns@.len() ==> (#[trigger] w.pawns@[i].job.kind matches crate::tasks::JobKind::Task(tid, _)
            ==> crate::tasks::has_task(w.task_board.tasks@, tid))
}

impl SimWorld {
    /// Whether every task job refers to a task on the board (`jobs_known`).
    pub fn jobs_check(&self) -> (r: bool)
        ensures
            r == jobs_known(self),
    {
        let mut i: usize = 0;
        while i < self.pawns.len()
            invariant
                i <= self.pawns@.len(),
                forall|j: int|
                    0 <= j < i ==> (#[trigger] self.pawns@[j].job.kind matches crate::tasks::JobKind::Task(tid, _)
                        ==> crate::tasks::has_task(self.task_board.tasks@, tid)),
            decreases self.pawns@.len() - i,
        {
            match self.pawns[i].job.kind {
                crate::tasks::JobKind::Task(tid, _) => {
                    if self.task_board.find(tid).is_none() {
                        return false;
                    }
                },
                _ => {},
            }
            i = i + 1;
        }
        true
    }
}
} // verus!
