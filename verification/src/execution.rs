//! Running one step of a pawn's current toil against the world.
use vstd::prelude::*;
use std::collections::VecDeque;
use crate::components::{
    ConstructionSite, FixtureKind, Harvestable, ItemKind, ItemRelation, has_id, ids_of_kind,
    without_id,
};
use crate::fixed_point::{Q40p24, scale};
use crate::grid::TileId;
use crate::ids::{FixtureId, ItemId, PawnId, next_alloc};
use crate::paths::{manhattan, manhattan_dist, manhattan_fits, manhattan_wide};
use crate::tasks::{BuildingSpec, JobKind, ToilEvent, ToilKind, ToilResult};
use crate::text::{tile_debug, tile_text, wrapped_number, wrapped_number_text};
use crate::tile_index::{tiles_cleared, tiles_moved, tiles_set};
use crate::world::{
    PawnEntity, SimWorld, Touch, berry_name, fixture_at, frame, has_fixture, has_item, item_at,
    spawned_fixture, touch_none, lemma_wf_same_ids, lemma_wf_item_removed,
};

verus! {

/// The inventory left after taking `n` items of kind `k`, the first of that kind
/// each time; `None` when there are fewer than `n`.
pub open spec fn take_kind(inv: Seq<(ItemId, ItemKind)>, k: ItemKind, n: nat) -> Option<
    Seq<(ItemId, ItemKind)>,
>
    decreases n,
{
    if n == 0 {
        Some(inv)
    } else {
        let ids = ids_of_kind(inv, k);
        if ids.len() == 0 {
            None
        } else {
            take_kind(without_id(inv, ids[0]), k, (n - 1) as nat)
        }
    }
}

/// The inventory left after taking the materials `req` lists, in order; `None`
/// when some are missing.
pub open spec fn consume_materials(inv: Seq<(ItemId, ItemKind)>, req: Seq<(ItemKind, u32)>) -> Option<
    Seq<(ItemId, ItemKind)>,
>
    decreases req.len(),
{
    if req.len() == 0 {
        Some(inv)
    } else {
        match take_kind(inv, req[0].0, req[0].1 as nat) {
            Some(rest) => consume_materials(rest, req.drop_first()),
            None => None,
        }
    }
}

/// The raw value of `n` whole units.
pub open spec fn units(n: int) -> int {
    n * scale()
}

/// The failure text of a pick-up of an item some other pawn carries.
pub open spec fn carried_by_other_msg(q: crate::ids::PawnId) -> Seq<char> {
    "Invalid PickUp toil: item already carried by pawn "@ + wrapped_number("PawnId"@, q.0 as nat)
}

/// The failure text of a pick-up of an item out of reach.
pub open spec fn pickup_far_msg(pos: TileId, item_pos: TileId) -> Seq<char> {
    "Invalid PickUp toil: item not adjacent pawn_pos: "@ + tile_debug(pos.x as int, pos.y as int)
        + " item_pos: "@ + tile_debug(item_pos.x as int, item_pos.y as int)
}

/// The failure text of planting out of reach.
pub open spec fn plant_far_msg(pos: TileId, target: TileId) -> Seq<char> {
    "Invalid Plant toil: target not adjacent pawn_pos: "@ + tile_debug(pos.x as int, pos.y as int)
        + " target_pos: "@ + tile_debug(target.x as int, target.y as int)
}

/// The pawn `pi` with new pawn data and position; its job and name are kept.
pub open spec fn pawn_moved(w: &SimWorld, pi: int, pos: TileId) -> PawnEntity {
    PawnEntity { pos, ..w.pawns@[pi] }
}

/// Where an item is, for a pawn at `pawn_pos`: carried items are with the pawn.
pub open spec fn item_position(w: &SimWorld, rel: ItemRelation, pawn_pos: TileId) -> TileId {
    match rel {
        ItemRelation::CarriedBy(_) => pawn_pos,
        ItemRelation::InFixture(f) => w.fixtures@[fixture_at(w.fixtures@, f)].pos,
        ItemRelation::OnGround(t) => t,
    }
}

// ---- MoveTo ----

/// What a MoveTo step needs: the next tile is a neighbour, the pawn is the one the
/// tile index shows at its tile, and the last step ends on the target.
pub open spec fn move_ok(w: &SimWorld, pi: int, target: TileId, path: Seq<TileId>) -> bool {
    let p = w.pawns@[pi];
    &&& path.len() > 0 ==> manhattan_dist(p.pos, path[0]) == 1
    &&& path.len() > 0 ==> (w.pawn_tiles.at(p.pos) matches Some(f) ==> f == p.pawn.id)
    &&& path.len() == 0 ==> p.pos == target
    &&& path.len() == 1 ==> path[0] == target
}

/// A MoveTo step: the pawn walks to the first tile of the path, which is dropped.
pub open spec fn move_post(
    w: &SimWorld,
    pi: int,
    path: Seq<TileId>,
    w2: &SimWorld,
    path2: Seq<TileId>,
    r: ToilResult,
) -> bool {
    let p = w.pawns@[pi];
    &&& if path.len() > 0 {
        &&& path2 == path.drop_first()
        &&& w2.pawns@ == w.pawns@.update(pi, pawn_moved(w, pi, path[0]))
        &&& tiles_moved(w.pawn_tiles, w2.pawn_tiles, p.pos, path[0], p.pawn.id)
        &&& frame(w, w2, (Touch { pawns: true, pawn_tiles: true, ..touch_none() }))
    } else {
        &&& path2 == path
        &&& frame(w, w2, touch_none())
    }
    &&& if path2.len() > 0 {
        r is Running
    } else {
        r is Done
    }
}

fn step_move_to(world: &mut SimWorld, pi: usize, target: TileId, path: &mut VecDeque<TileId>) -> (r:
    ToilResult)
    requires
        old(world).wf(),
        pi < old(world).pawns@.len(),
        move_ok(old(world), pi as int, target, old(path)@),
    ensures
        final(world).wf(),
        move_post(old(world), pi as int, old(path)@, final(world), final(path)@, r),
{
    if path.len() > 0 {
        let next = path.pop_front().unwrap();
        let pid = world.pawns[pi].pawn.id;
        let mut at = world.pawns[pi].pos;
        world.pawn_tiles.move_id(Some(&mut at), next, pid);
        world.pawns[pi].pos = at;
        proof {
            assert(world.pawns@ =~= old(world).pawns@.update(pi as int, pawn_moved(old(world), pi as int, next)));
            assert(path@ =~= old(path)@.drop_first());
        }
    }
    if path.len() > 0 {
        ToilResult::Running
    } else {
        ToilResult::Done
    }
}


/// Pawn `pi` of `w2` is pawn `pi` of `w` with inventory `inv`; the other pawns are unchanged.
pub open spec fn pawn_inventory_now(w: &SimWorld, w2: &SimWorld, pi: int, inv: Seq<(ItemId, ItemKind)>) -> bool {
    &&& w2.pawns@.len() == w.pawns@.len()
    &&& forall|j: int| 0 <= j < w.pawns@.len() && j != pi ==> w2.pawns@[j] == w.pawns@[j]
    &&& w2.pawns@[pi] == (PawnEntity {
        pawn: crate::components::Pawn { inventory: w2.pawns@[pi].pawn.inventory, ..w.pawns@[pi].pawn },
        ..w.pawns@[pi]
    })
    &&& w2.pawns@[pi].pawn.inventory@ == inv
}

/// Fixture `fi` of `w2` is fixture `fi` of `w` with inventory `inv`; the other
/// fixtures are unchanged.
pub open spec fn fixture_inventory_now(w: &SimWorld, w2: &SimWorld, fi: int, inv: Seq<(ItemId, ItemKind)>) -> bool {
    &&& w2.fixtures@.len() == w.fixtures@.len()
    &&& forall|j: int| 0 <= j < w.fixtures@.len() && j != fi ==> w2.fixtures@[j] == w.fixtures@[j]
    &&& w2.fixtures@[fi] == (crate::world::FixtureEntity {
        fixture: crate::components::Fixture {
            inventory: w2.fixtures@[fi].fixture.inventory,
            ..w.fixtures@[fi].fixture
        },
        ..w.fixtures@[fi]
    })
    &&& w2.fixtures@[fi].fixture.inventory@ == inv
}

/// The item records of `w` with item `ii` now at `rel`.
pub open spec fn item_related(w: &SimWorld, ii: int, rel: ItemRelation) -> Seq<crate::world::ItemEntity> {
    w.items@.update(ii, crate::world::ItemEntity { relation: rel, ..w.items@[ii] })
}

// ---- PickUpItem ----

/// What a pick-up needs: the item exists, its fixture exists, distances can be
/// computed, and a ground item is the one the tile index shows.
pub open spec fn pickup_ok(w: &SimWorld, pi: int, item_id: ItemId) -> bool {
    let p = w.pawns@[pi];
    &&& has_item(w.items@, item_id)
    &&& match w.items@[item_at(w.items@, item_id)].relation {
        ItemRelation::CarriedBy(_) => true,
        ItemRelation::InFixture(f) => has_fixture(w.fixtures@, f) && manhattan_fits(
            p.pos,
            w.fixtures@[fixture_at(w.fixtures@, f)].pos,
        ),
        ItemRelation::OnGround(t) => manhattan_fits(p.pos, t) && (manhattan_dist(p.pos, t) <= 1 ==> (
        w.item_tiles.at(t) matches Some(x) ==> x == item_id)),
    }
}

/// A pick-up: an item already carried by the pawn is done, by another pawn fails;
/// one out of reach fails; otherwise it leaves the ground or its fixture and the
/// pawn carries it.
pub open spec fn pickup_post(w: &SimWorld, pi: int, item_id: ItemId, w2: &SimWorld, r: ToilResult) -> bool {
    let p = w.pawns@[pi];
    let ii = item_at(w.items@, item_id);
    let it = w.items@[ii];
    let pos = item_position(w, it.relation, p.pos);
    match it.relation {
        ItemRelation::CarriedBy(q) => frame(w, w2, touch_none()) && if q == p.pawn.id {
            r is Done
        } else {
            r matches ToilResult::Failed(m) && m@ == carried_by_other_msg(q)
        },
        _ => if manhattan_dist(p.pos, pos) > 1 {
            &&& frame(w, w2, touch_none())
            &&& r matches ToilResult::Failed(m) && m@ == pickup_far_msg(p.pos, pos)
        } else {
            &&& r is Done
            &&& w2.items@ == item_related(w, ii, ItemRelation::CarriedBy(p.pawn.id))
            &&& pawn_inventory_now(w, w2, pi, p.pawn.inventory@.push((item_id, it.item.kind)))
            &&& match it.relation {
                ItemRelation::OnGround(t) => {
                    &&& tiles_cleared(w.item_tiles, w2.item_tiles, t)
                    &&& frame(w, w2, (Touch { pawns: true, items: true, item_tiles: true, ..touch_none() }))
                },
                ItemRelation::InFixture(f) => {
                    let fi = fixture_at(w.fixtures@, f);
                    &&& fixture_inventory_now(w, w2, fi, without_id(w.fixtures@[fi].fixture.inventory@, item_id))
                    &&& frame(w, w2, (Touch { pawns: true, items: true, fixtures: true, ..touch_none() }))
                },
                _ => true,
            }
        },
    }
}

fn step_pick_up(world: &mut SimWorld, pi: usize, item_id: ItemId) -> (r: ToilResult)
    requires
        old(world).wf(),
        pi < old(world).pawns@.len(),
        pickup_ok(old(world), pi as int, item_id),
    ensures
        final(world).wf(),
        pickup_post(old(world), pi as int, item_id, final(world), r),
{
    let ii = world.find_item(item_id).unwrap();
    let pid = world.pawns[pi].pawn.id;
    let pos = world.pawns[pi].pos;
    let rel = world.items[ii].relation;
    let kind = world.items[ii].item.kind;
    let item_pos = match rel {
        ItemRelation::CarriedBy(q) => {
            if q.0 == pid.0 {
                return ToilResult::Done;
            }
            let mut m = String::from_str("Invalid PickUp toil: item already carried by pawn ");
            let t = wrapped_number_text("PawnId", q.0);
            m.append(t.as_str());
            return ToilResult::Failed(m);
        },
        ItemRelation::InFixture(f) => {
            let fi = world.find_fixture(f).unwrap();
            world.fixtures[fi].pos
        },
        ItemRelation::OnGround(t) => t,
    };
    if manhattan(pos, item_pos) > 1 {
        let mut m = String::from_str("Invalid PickUp toil: item not adjacent pawn_pos: ");
        let a = tile_text(pos.x, pos.y);
        m.append(a.as_str());
        m.append(" item_pos: ");
        let b = tile_text(item_pos.x, item_pos.y);
        m.append(b.as_str());
        return ToilResult::Failed(m);
    }
    match rel {
        ItemRelation::OnGround(t) => {
            world.item_tiles.remove(t, item_id);
        },
        ItemRelation::InFixture(f) => {
            let fi = world.find_fixture(f).unwrap();
            world.fixtures[fi].fixture.inventory.remove(&item_id);
        },
        ItemRelation::CarriedBy(_) => {},
    }
    world.items[ii].relation = ItemRelation::CarriedBy(pid);
    world.pawns[pi].pawn.inventory.add((item_id, kind));
    proof {
        assert(world.items@ =~= item_related(old(world), ii as int, ItemRelation::CarriedBy(pid)));
        lemma_wf_same_ids(old(world), world);
    }
    ToilResult::Done
}

/// Pawn `pi` of `w2` is pawn `pi` of `w` with the given inventory and meters; the
/// other pawns are unchanged.
pub open spec fn pawn_now(
    w: &SimWorld,
    w2: &SimWorld,
    pi: int,
    inv: Seq<(ItemId, ItemKind)>,
    sleep: Q40p24,
    hunger: Q40p24,
) -> bool {
    &&& w2.pawns@.len() == w.pawns@.len()
    &&& forall|j: int| 0 <= j < w.pawns@.len() && j != pi ==> w2.pawns@[j] == w.pawns@[j]
    &&& w2.pawns@[pi] == (PawnEntity {
        pawn: crate::components::Pawn {
            inventory: w2.pawns@[pi].pawn.inventory,
            sleep,
            hunger,
            ..w.pawns@[pi].pawn
        },
        ..w.pawns@[pi]
    })
    &&& w2.pawns@[pi].pawn.inventory@ == inv
}

// ---- PutDownItem ----

pub open spec fn put_down_ok(w: &SimWorld, pi: int, item_id: ItemId) -> bool {
    &&& has_id(w.pawns@[pi].pawn.inventory@, item_id)
    &&& has_item(w.items@, item_id)
}

/// A put-down: the item leaves the pawn's inventory and lies on the target tile.
pub open spec fn put_down_post(w: &SimWorld, pi: int, item_id: ItemId, target: TileId, w2: &SimWorld, r: ToilResult) -> bool {
    let ii = item_at(w.items@, item_id);
    &&& r is Done
    &&& pawn_inventory_now(w, w2, pi, without_id(w.pawns@[pi].pawn.inventory@, item_id))
    &&& w2.items@ == item_related(w, ii, ItemRelation::OnGround(target))
    &&& tiles_set(w.item_tiles, w2.item_tiles, target, item_id)
    &&& frame(w, w2, (Touch { pawns: true, items: true, item_tiles: true, ..touch_none() }))
}

fn step_put_down(world: &mut SimWorld, pi: usize, item_id: ItemId, target: TileId) -> (r: ToilResult)
    requires
        old(world).wf(),
        pi < old(world).pawns@.len(),
        put_down_ok(old(world), pi as int, item_id),
    ensures
        final(world).wf(),
        put_down_post(old(world), pi as int, item_id, target, final(world), r),
{
    let ii = world.find_item(item_id).unwrap();
    world.pawns[pi].pawn.inventory.remove(&item_id);
    world.item_tiles.move_id(None, target, item_id);
    world.items[ii].relation = ItemRelation::OnGround(target);
    proof {
        assert(world.items@ =~= item_related(old(world), ii as int, ItemRelation::OnGround(target)));
        lemma_wf_same_ids(old(world), world);
    }
    ToilResult::Done
}

// ---- Plant ----

pub open spec fn plant_ok(w: &SimWorld, pi: int, seed: ItemId, tile: TileId) -> bool {
    let p = w.pawns@[pi];
    let it = w.items@[item_at(w.items@, seed)];
    &&& has_item(w.items@, seed)
    &&& it.item.kind == ItemKind::Berry
    &&& it.relation == ItemRelation::CarriedBy(p.pawn.id)
    &&& has_id(p.pawn.inventory@, seed)
    &&& manhattan_fits(p.pos, tile)
    &&& manhattan_dist(p.pos, tile) <= 1 ==> !w.fixture_index.view().contains_key(u64::MAX)
        && w.next_entity < u64::MAX
}

/// Planting: out of reach fails; otherwise the seed is used up and a berry bush,
/// ready to grow, is spawned on the tile.
pub open spec fn plant_post(w: &SimWorld, pi: int, seed: ItemId, tile: TileId, w2: &SimWorld, r: ToilResult) -> bool {
    let p = w.pawns@[pi];
    let ii = item_at(w.items@, seed);
    let fid = FixtureId(next_alloc(w.fixture_index.view()));
    if manhattan_dist(p.pos, tile) > 1 {
        &&& frame(w, w2, touch_none())
        &&& r matches ToilResult::Failed(m) && m@ == plant_far_msg(p.pos, tile)
    } else {
        &&& r is Done
        &&& w2.items@ == w.items@.remove(ii)
        &&& w2.item_index.view() == w.item_index.view().insert(seed.0, None)
        &&& pawn_inventory_now(w, w2, pi, without_id(p.pawn.inventory@, seed))
        &&& w2.fixtures@.len() == w.fixtures@.len() + 1
        &&& w2.fixtures@.drop_last() == w.fixtures@
        &&& spawned_fixture(
            w2.fixtures@.last(),
            fid,
            crate::ids::Entity(w.next_entity),
            FixtureKind::BerryBush,
            tile,
            Some(Harvestable { countdown: 100, seq_num: 0 }),
            None,
        )
        &&& w2.fixture_index.view() == w.fixture_index.view().insert(fid.0, Some(crate::ids::Entity(w.next_entity)))
        &&& tiles_set(w.fixture_tiles, w2.fixture_tiles, tile, fid)
        &&& w2.next_entity == w.next_entity + 1
        &&& frame(
            w,
            w2,
            (Touch {
                pawns: true,
                items: true,
                item_index: true,
                fixtures: true,
                fixture_index: true,
                fixture_tiles: true,
                entities: true,
                ..touch_none()
            }),
        )
    }
}

fn step_plant(world: &mut SimWorld, pi: usize, seed: ItemId, tile: TileId) -> (r: ToilResult)
    requires
        old(world).wf(),
        pi < old(world).pawns@.len(),
        plant_ok(old(world), pi as int, seed, tile),
    ensures
        final(world).wf(),
        plant_post(old(world), pi as int, seed, tile, final(world), r),
{
    let pos = world.pawns[pi].pos;
    if manhattan(pos, tile) > 1 {
        let mut m = String::from_str("Invalid Plant toil: target not adjacent pawn_pos: ");
        let a = tile_text(pos.x, pos.y);
        m.append(a.as_str());
        m.append(" target_pos: ");
        let b = tile_text(tile.x, tile.y);
        m.append(b.as_str());
        return ToilResult::Failed(m);
    }
    let ii = world.find_item(seed).unwrap();
    let ghost w0 = *world;
    proof {
        assert(world.item_index.has(world.items@[ii as int].item.id));
    }
    world.items.remove(ii);
    world.item_index.remove(seed);
    world.pawns[pi].pawn.inventory.remove(&seed);
    proof {
        lemma_wf_item_removed(&w0, world, ii as int);
    }
    let ghost w1 = *world;
    let kind = FixtureKind::BerryBush;
    world.spawn_fixture(
        None,
        kind.name(),
        kind,
        tile,
        crate::components::Inventory::new(),
        Some(Harvestable { countdown: 100, seq_num: 0 }),
        None,
    );
    ToilResult::Done
}

// ---- Harvest ----

pub open spec fn harvest_ok(w: &SimWorld, pi: int, f: FixtureId) -> bool {
    let fe = w.fixtures@[fixture_at(w.fixtures@, f)];
    &&& has_fixture(w.fixtures@, f)
    &&& manhattan_dist(w.pawns@[pi].pos, fe.pos) == 1
    &&& fe.harvestable matches Some(h) && h.countdown == 0 && h.seq_num < u32::MAX
    &&& fe.fixture.kind == FixtureKind::BerryBush
    &&& !w.item_index.view().contains_key(u64::MAX)
    &&& w.next_entity < u64::MAX
}

/// Harvesting: the bush starts a new countdown and counts one more harvest; a
/// new berry appears in the pawn's inventory.
pub open spec fn harvest_post(w: &SimWorld, pi: int, f: FixtureId, w2: &SimWorld, r: ToilResult) -> bool {
    let fi = fixture_at(w.fixtures@, f);
    let fe = w.fixtures@[fi];
    let h = fe.harvestable.unwrap();
    let id = ItemId(next_alloc(w.item_index.view()));
    let e = crate::ids::Entity(w.next_entity);
    &&& r is Done
    &&& w2.fixtures@ == w.fixtures@.update(
        fi,
        crate::world::FixtureEntity {
            harvestable: Some(Harvestable { countdown: 100, seq_num: (h.seq_num + 1) as u32 }),
            ..fe
        },
    )
    &&& w2.items@.len() == w.items@.len() + 1
    &&& w2.items@.drop_last() == w.items@
    &&& w2.items@.last().entity == e
    &&& w2.items@.last().name@ == berry_name(id)
    &&& w2.items@.last().item == (crate::components::Item { id, kind: ItemKind::Berry, qty: 1 })
    &&& w2.items@.last().relation == ItemRelation::CarriedBy(w.pawns@[pi].pawn.id)
    &&& w2.item_index.view() == w.item_index.view().insert(id.0, Some(e))
    &&& pawn_inventory_now(w, w2, pi, w.pawns@[pi].pawn.inventory@.push((id, ItemKind::Berry)))
    &&& w2.next_entity == w.next_entity + 1
    &&& frame(
        w,
        w2,
        (Touch { pawns: true, items: true, item_index: true, fixtures: true, entities: true, ..touch_none() }),
    )
}

fn step_harvest(world: &mut SimWorld, pi: usize, f: FixtureId) -> (r: ToilResult)
    requires
        old(world).wf(),
        pi < old(world).pawns@.len(),
        harvest_ok(old(world), pi as int, f),
    ensures
        final(world).wf(),
        harvest_post(old(world), pi as int, f, final(world), r),
{
    let fi = world.find_fixture(f).unwrap();
    let h = world.fixtures[fi].harvestable.unwrap();
    world.fixtures[fi].harvestable = Some(Harvestable { countdown: 100, seq_num: h.seq_num + 1 });
    proof {
        lemma_wf_same_ids(old(world), world);
    }
    let ghost w1 = *world;
    let pid = world.pawns[pi].pawn.id;
    let id = world.spawn_item(None, "Berry", ItemKind::Berry, 1, ItemRelation::CarriedBy(pid));
    let ghost w2 = *world;
    world.pawns[pi].pawn.inventory.add((id, ItemKind::Berry));
    proof {
        lemma_wf_same_ids(&w2, world);
    }
    ToilResult::Done
}


// ---- Consume ----

pub open spec fn consume_ok(w: &SimWorld, pi: int, item_id: ItemId) -> bool {
    let p = w.pawns@[pi];
    let it = w.items@[item_at(w.items@, item_id)];
    &&& has_id(p.pawn.inventory@, item_id)
    &&& has_item(w.items@, item_id)
    &&& it.relation == ItemRelation::CarriedBy(p.pawn.id)
    &&& it.item.kind == ItemKind::Berry
}

/// Hunger after eating a berry: 60 more, capped at 100.
pub open spec fn fed(hunger: Q40p24) -> Q40p24 {
    let sum = vstd::wrapping::i64_specs::wrapping_add(hunger.0, units(60) as i64);
    if sum > units(100) {
        Q40p24(units(100) as i64)
    } else {
        Q40p24(sum)
    }
}

/// Eating: the berry leaves the inventory and the world, and hunger is refilled.
pub open spec fn consume_post(w: &SimWorld, pi: int, item_id: ItemId, w2: &SimWorld, r: ToilResult) -> bool {
    let p = w.pawns@[pi];
    &&& r is Done
    &&& pawn_now(w, w2, pi, without_id(p.pawn.inventory@, item_id), p.pawn.sleep, fed(p.pawn.hunger))
    &&& w2.items@ == w.items@.remove(item_at(w.items@, item_id))
    &&& frame(w, w2, (Touch { pawns: true, items: true, ..touch_none() }))
}

/// Eating a berry refills the hunger meter by 60 units, to at most 100 (meters
/// in units of 2^24): afterwards it is the smaller of its old value plus 60 and
/// 100, and in no case above 100. Sleep and the other pawns are untouched.
pub proof fn law_consume_feeds(w: SimWorld, pi: int, item_id: ItemId, w2: SimWorld, r: ToilResult)
    requires
        0 <= pi < w.pawns@.len(),
        consume_post(&w, pi, item_id, &w2, r),
    ensures
        w2.pawns@[pi].pawn.hunger.0 <= 100 * 16777216,
        w.pawns@[pi].pawn.hunger.0 + 60 * 16777216 <= i64::MAX ==> w2.pawns@[pi].pawn.hunger.0 == if w.pawns@[pi].pawn.hunger.0
            + 60 * 16777216 <= 100 * 16777216 {
            w.pawns@[pi].pawn.hunger.0 + 60 * 16777216
        } else {
            100 * 16777216int
        },
        w2.pawns@[pi].pawn.sleep == w.pawns@[pi].pawn.sleep,
        forall|j: int| 0 <= j < w.pawns@.len() && j != pi ==> w2.pawns@[j] == w.pawns@[j],
        r is Done,
{
}

fn step_consume(world: &mut SimWorld, pi: usize, item_id: ItemId) -> (r: ToilResult)
    requires
        old(world).wf(),
        pi < old(world).pawns@.len(),
        consume_ok(old(world), pi as int, item_id),
    ensures
        final(world).wf(),
        consume_post(old(world), pi as int, item_id, final(world), r),
{
    let ii = world.find_item(item_id).unwrap();
    world.pawns[pi].pawn.inventory.remove(&item_id);
    world.items.remove(ii);
    let nutrition = Q40p24::from_int(60);
    let hundred = Q40p24::from_int(100);
    let h = world.pawns[pi].pawn.hunger;
    let sum = h + nutrition;
    world.pawns[pi].pawn.hunger = if sum.0 > hundred.0 {
        hundred
    } else {
        sum
    };
    proof {
        lemma_wf_item_removed(old(world), world, ii as int);
    }
    ToilResult::Done
}

// ---- Sleep ----

pub open spec fn sleep_ok(w: &SimWorld, pi: int, f: FixtureId) -> bool {
    let fe = w.fixtures@[fixture_at(w.fixtures@, f)];
    &&& has_fixture(w.fixtures@, f)
    &&& fe.fixture.kind == FixtureKind::SleepingPad
    &&& manhattan_fits(w.pawns@[pi].pos, fe.pos)
    &&& manhattan_dist(w.pawns@[pi].pos, fe.pos) <= 1
}

/// Sleeping: below 100 the meter rises by 10 and the pawn keeps sleeping; at
/// 100 or more it is set to 100 and the toil is done.
pub open spec fn sleep_post(w: &SimWorld, pi: int, w2: &SimWorld, r: ToilResult) -> bool {
    let p = w.pawns@[pi].pawn;
    &&& if p.sleep.0 < units(100) {
        &&& pawn_now(
            w,
            w2,
            pi,
            p.inventory@,
            Q40p24(vstd::wrapping::i64_specs::wrapping_add(p.sleep.0, units(10) as i64)),
            p.hunger,
        )
        &&& r is Running
    } else {
        &&& pawn_now(w, w2, pi, p.inventory@, Q40p24(units(100) as i64), p.hunger)
        &&& r is Done
    }
    &&& frame(w, w2, (Touch { pawns: true, ..touch_none() }))
}

/// A sleep toil step (meters in units of 2^24): below 100 sleep, the meter
/// rises by 10 and the pawn sleeps on; at 100 or more it is set to 100 and the
/// toil is done. Hunger, the inventory and the other pawns are untouched.
pub proof fn law_sleep_rests(w: SimWorld, pi: int, w2: SimWorld, r: ToilResult)
    requires
        0 <= pi < w.pawns@.len(),
        sleep_post(&w, pi, &w2, r),
    ensures
        w.pawns@[pi].pawn.sleep.0 < 100 * 16777216 ==> r is Running && w2.pawns@[pi].pawn.sleep.0 == w.pawns@[pi].pawn.sleep.0
            + 10 * 16777216,
        w.pawns@[pi].pawn.sleep.0 >= 100 * 16777216 ==> r is Done && w2.pawns@[pi].pawn.sleep.0 == 100 * 16777216,
        w2.pawns@[pi].pawn.hunger == w.pawns@[pi].pawn.hunger,
        w2.pawns@[pi].pawn.inventory@ == w.pawns@[pi].pawn.inventory@,
        forall|j: int| 0 <= j < w.pawns@.len() && j != pi ==> w2.pawns@[j] == w.pawns@[j],
{
}

fn step_sleep(world: &mut SimWorld, pi: usize) -> (r: ToilResult)
    requires
        old(world).wf(),
        pi < old(world).pawns@.len(),
    ensures
        final(world).wf(),
        sleep_post(old(world), pi as int, final(world), r),
{
    let hundred = Q40p24::from_int(100);
    let s = world.pawns[pi].pawn.sleep;
    let r = if s.0 < hundred.0 {
        world.pawns[pi].pawn.sleep = s + Q40p24::from_int(10);
        ToilResult::Running
    } else {
        world.pawns[pi].pawn.sleep = hundred;
        ToilResult::Done
    };
    proof {
        lemma_wf_same_ids(old(world), world);
    }
    r
}

// ---- PlaceConstructionSite ----

pub open spec fn place_site_ok(w: &SimWorld) -> bool {
    &&& !w.fixture_index.view().contains_key(u64::MAX)
    &&& w.next_entity < u64::MAX
}

/// Placing a construction site: a construction-site fixture appears at the
/// building's top-left tile, holding the building spec and all its work units.
pub open spec fn place_site_post(w: &SimWorld, spec: BuildingSpec, w2: &SimWorld, r: ToilResult) -> bool {
    let fid = FixtureId(next_alloc(w.fixture_index.view()));
    let f = w2.fixtures@.last();
    &&& r is Done
    &&& w2.fixtures@.len() == w.fixtures@.len() + 1
    &&& w2.fixtures@.drop_last() == w.fixtures@
    &&& spawned_fixture(
        f,
        fid,
        crate::ids::Entity(w.next_entity),
        FixtureKind::ConstructionSite,
        spec.top_left,
        None,
        f.site,
    )
    &&& f.site matches Some(cs) && cs.building_spec.same(&spec) && cs.work_left == spec.work_units
    &&& w2.fixture_index.view() == w.fixture_index.view().insert(fid.0, Some(crate::ids::Entity(w.next_entity)))
    &&& tiles_set(w.fixture_tiles, w2.fixture_tiles, spec.top_left, fid)
    &&& w2.next_entity == w.next_entity + 1
    &&& frame(
        w,
        w2,
        (Touch { fixtures: true, fixture_index: true, fixture_tiles: true, entities: true, ..touch_none() }),
    )
}

fn step_place_site(world: &mut SimWorld, spec: &BuildingSpec) -> (r: ToilResult)
    requires
        old(world).wf(),
        place_site_ok(old(world)),
    ensures
        final(world).wf(),
        place_site_post(old(world), *spec, final(world), r),
{
    let kind = FixtureKind::ConstructionSite;
    let site = ConstructionSite { building_spec: spec.copy(), work_left: spec.work_units };
    world.spawn_fixture(
        None,
        kind.name(),
        kind,
        spec.top_left,
        crate::components::Inventory::new(),
        None,
        Some(site),
    );
    ToilResult::Done
}

// ---- StoreItem ----

pub open spec fn store_ok(w: &SimWorld, pi: int, item_id: ItemId, f: FixtureId) -> bool {
    let p = w.pawns@[pi];
    &&& has_id(p.pawn.inventory@, item_id)
    &&& has_item(w.items@, item_id)
    &&& w.items@[item_at(w.items@, item_id)].relation == ItemRelation::CarriedBy(p.pawn.id)
    &&& has_fixture(w.fixtures@, f)
}

/// Storing: the item moves from the pawn's inventory into the fixture's.
pub open spec fn store_post(w: &SimWorld, pi: int, item_id: ItemId, f: FixtureId, w2: &SimWorld, r: ToilResult) -> bool {
    let ii = item_at(w.items@, item_id);
    let fi = fixture_at(w.fixtures@, f);
    &&& r is Done
    &&& pawn_inventory_now(w, w2, pi, without_id(w.pawns@[pi].pawn.inventory@, item_id))
    &&& fixture_inventory_now(w, w2, fi, w.fixtures@[fi].fixture.inventory@.push((item_id, w.items@[ii].item.kind)))
    &&& w2.items@ == item_related(w, ii, ItemRelation::InFixture(f))
    &&& frame(w, w2, (Touch { pawns: true, items: true, fixtures: true, ..touch_none() }))
}

fn step_store(world: &mut SimWorld, pi: usize, item_id: ItemId, f: FixtureId) -> (r: ToilResult)
    requires
        old(world).wf(),
        pi < old(world).pawns@.len(),
        store_ok(old(world), pi as int, item_id, f),
    ensures
        final(world).wf(),
        store_post(old(world), pi as int, item_id, f, final(world), r),
{
    let ii = world.find_item(item_id).unwrap();
    let kind = world.items[ii].item.kind;
    world.pawns[pi].pawn.inventory.remove(&item_id);
    let fi = world.find_fixture(f).unwrap();
    world.fixtures[fi].fixture.inventory.add((item_id, kind));
    world.items[ii].relation = ItemRelation::InFixture(f);
    proof {
        assert(world.items@ =~= item_related(old(world), ii as int, ItemRelation::InFixture(f)));
        lemma_wf_same_ids(old(world), world);
    }
    ToilResult::Done
}

// ---- Build ----

pub open spec fn build_ok(w: &SimWorld, f: FixtureId) -> bool {
    let fe = w.fixtures@[fixture_at(w.fixtures@, f)];
    &&& has_fixture(w.fixtures@, f)
    &&& fe.fixture.kind == FixtureKind::ConstructionSite
    &&& fe.site matches Some(cs) && (cs.work_left <= 1 ==> consume_materials(
        fe.fixture.inventory@,
        cs.building_spec.required_items@,
    ) is Some)
}

/// Building: one work unit is done; when none is left the fixture becomes the
/// planned kind, the materials are used up and the construction state goes.
pub open spec fn build_post(w: &SimWorld, f: FixtureId, w2: &SimWorld, r: ToilResult) -> bool {
    let fi = fixture_at(w.fixtures@, f);
    let fe = w.fixtures@[fi];
    let cs = fe.site.unwrap();
    &&& w2.fixtures@.len() == w.fixtures@.len()
    &&& forall|j: int| 0 <= j < w.fixtures@.len() && j != fi ==> w2.fixtures@[j] == w.fixtures@[j]
    &&& if cs.work_left <= 1 {
        let g = w2.fixtures@[fi];
        &&& r is Done
        &&& g.fixture.inventory@ == consume_materials(fe.fixture.inventory@, cs.building_spec.required_items@).unwrap()
        &&& g == (crate::world::FixtureEntity {
            fixture: crate::components::Fixture {
                kind: cs.building_spec.fixture_kind,
                inventory: g.fixture.inventory,
                ..fe.fixture
            },
            site: None,
            ..fe
        })
    } else {
        &&& r is Running
        &&& w2.fixtures@[fi] == (crate::world::FixtureEntity {
            site: Some(ConstructionSite { work_left: (cs.work_left - 1) as u32, ..cs }),
            ..fe
        })
    }
    &&& frame(w, w2, (Touch { fixtures: true, ..touch_none() }))
}

/// Take `n` items of kind `k` out of `inv`, the first of that kind each time;
/// false when there are fewer than `n`.
fn try_take_items(inv: &mut crate::components::Inventory, k: ItemKind, n: u32) -> (ok: bool)
    ensures
        ok == take_kind(old(inv)@, k, n as nat) is Some,
        ok ==> final(inv)@ == take_kind(old(inv)@, k, n as nat).unwrap(),
{
    let mut left = n;
    while left > 0
        invariant
            take_kind(inv@, k, left as nat) == take_kind(old(inv)@, k, n as nat),
        decreases left,
    {
        match inv.find(k) {
            None => {
                return false;
            },
            Some(id) => {
                inv.remove(&id);
                left = left - 1;
            },
        }
    }
    true
}

/// Take the materials `req` lists out of `inv`, in order.
fn take_materials(inv: &mut crate::components::Inventory, req: &Vec<(ItemKind, u32)>)
    requires
        consume_materials(old(inv)@, req@) is Some,
    ensures
        final(inv)@ == consume_materials(old(inv)@, req@).unwrap(),
{
    let mut j: usize = 0;
    assert(req@.skip(0) =~= req@);
    while j < req.len()
        invariant
            j <= req@.len(),
            consume_materials(inv@, req@.skip(j as int)) == consume_materials(old(inv)@, req@),
            consume_materials(old(inv)@, req@) is Some,
        decreases req@.len() - j,
    {
        let (k, q) = req[j];
        proof {
            assert(req@.skip(j as int)[0] == req@[j as int]);
            assert(req@.skip(j as int).drop_first() =~= req@.skip(j as int + 1));
        }
        try_take_items(inv, k, q);
        j = j + 1;
    }
    assert(req@.skip(req@.len() as int) =~= Seq::<(ItemKind, u32)>::empty());
}

fn step_build(world: &mut SimWorld, f: FixtureId) -> (r: ToilResult)
    requires
        old(world).wf(),
        build_ok(old(world), f),
    ensures
        final(world).wf(),
        build_post(old(world), f, final(world), r),
{
    let fi = world.find_fixture(f).unwrap();
    let mut cs = world.fixtures[fi].site.take().unwrap();
    cs.work_left = if cs.work_left > 0 { cs.work_left - 1 } else { 0 };
    let r = if cs.work_left == 0 {
        world.fixtures[fi].fixture.kind = cs.building_spec.fixture_kind;
        take_materials(&mut world.fixtures[fi].fixture.inventory, &cs.building_spec.required_items);
        ToilResult::Done
    } else {
        world.fixtures[fi].site = Some(cs);
        ToilResult::Running
    };
    proof {
        lemma_wf_same_ids(old(world), world);
    }
    r
}

// ---- one toil ----

/// What stepping toil `t` for pawn `pi` needs, so that nothing panics.
pub open spec fn toil_ok(w: &SimWorld, pi: int, t: ToilKind) -> bool {
    match t {
        ToilKind::MoveTo { target, path } => move_ok(w, pi, target, path@),
        ToilKind::PickUpItem { item_id } => pickup_ok(w, pi, item_id),
        ToilKind::PutDownItem { item_id, .. } => put_down_ok(w, pi, item_id),
        ToilKind::Plant { seed_id, tile_id } => plant_ok(w, pi, seed_id, tile_id),
        ToilKind::Consume { item_id } => consume_ok(w, pi, item_id),
        ToilKind::Sleep { fixture_id } => sleep_ok(w, pi, fixture_id),
        ToilKind::PlaceConstructionSite { .. } => place_site_ok(w),
        ToilKind::Build { fixture_id } => build_ok(w, fixture_id),
        ToilKind::Harvest { fixture_id } => harvest_ok(w, pi, fixture_id),
        ToilKind::StoreItem { item_id, target_fixture_id } => store_ok(w, pi, item_id, target_fixture_id),
    }
}

/// One step of toil `t` for pawn `pi` turns `w` into `w2`, leaves the toil as `t2`
/// (only a MoveTo changes: its path shrinks) and reports `r`.
pub open spec fn toil_post(w: &SimWorld, pi: int, t: ToilKind, w2: &SimWorld, t2: ToilKind, r: ToilResult) -> bool {
    match t {
        ToilKind::MoveTo { target, path } => t2 matches ToilKind::MoveTo { target: target2, path: path2 }
            && target2 == target && move_post(w, pi, path@, w2, path2@, r),
        _ => t2 == t && match t {
            ToilKind::PickUpItem { item_id } => pickup_post(w, pi, item_id, w2, r),
            ToilKind::PutDownItem { item_id, target_tile } => put_down_post(w, pi, item_id, target_tile, w2, r),
            ToilKind::Plant { seed_id, tile_id } => plant_post(w, pi, seed_id, tile_id, w2, r),
            ToilKind::Consume { item_id } => consume_post(w, pi, item_id, w2, r),
            ToilKind::Sleep { .. } => sleep_post(w, pi, w2, r),
            ToilKind::PlaceConstructionSite { building_spec } => place_site_post(w, building_spec, w2, r),
            ToilKind::Build { fixture_id } => build_post(w, fixture_id, w2, r),
            ToilKind::Harvest { fixture_id } => harvest_post(w, pi, fixture_id, w2, r),
            ToilKind::StoreItem { item_id, target_fixture_id } => store_post(
                w,
                pi,
                item_id,
                target_fixture_id,
                w2,
                r,
            ),
            _ => true,
        },
    }
}

/// Run one step of `toil` for pawn `pi`; returns how it went and the toil as it
/// stands afterwards.
pub fn step_toil(world: &mut SimWorld, pi: usize, toil: ToilKind) -> (res: (ToilResult, ToilKind))
    requires
        old(world).wf(),
        pi < old(world).pawns@.len(),
        toil_ok(old(world), pi as int, toil),
    ensures
        final(world).wf(),
        toil_post(old(world), pi as int, toil, final(world), res.1, res.0),
{
    match toil {
        ToilKind::MoveTo { target, path } => {
            let mut path = path;
            let r = step_move_to(world, pi, target, &mut path);
            (r, ToilKind::MoveTo { target, path })
        },
        other => {
            let r = match &other {
                ToilKind::PickUpItem { item_id } => step_pick_up(world, pi, *item_id),
                ToilKind::PutDownItem { item_id, target_tile } => step_put_down(
                    world,
                    pi,
                    *item_id,
                    *target_tile,
                ),
                ToilKind::Plant { seed_id, tile_id } => step_plant(world, pi, *seed_id, *tile_id),
                ToilKind::Consume { item_id } => step_consume(world, pi, *item_id),
                ToilKind::Sleep { .. } => step_sleep(world, pi),
                ToilKind::PlaceConstructionSite { building_spec } => step_place_site(world, building_spec),
                ToilKind::Build { fixture_id } => step_build(world, *fixture_id),
                ToilKind::Harvest { fixture_id } => step_harvest(world, pi, *fixture_id),
                ToilKind::StoreItem { item_id, target_fixture_id } => step_store(
                    world,
                    pi,
                    *item_id,
                    *target_fixture_id,
                ),
                ToilKind::MoveTo { .. } => ToilResult::Done,
            };
            (r, other)
        },
    }
}

/// Whether a pick-up, sleep or harvest distance check can run: both tiles' the
/// pawn and the fixture with id `f` exist and are within `i32` distance.
fn fixture_pos_of(world: &SimWorld, f: FixtureId) -> (r: Option<TileId>)
    requires
        world.wf(),
    ensures
        r is Some <==> has_fixture(world.fixtures@, f),
        r matches Some(t) ==> t == world.fixtures@[fixture_at(world.fixtures@, f)].pos,
{
    match world.find_fixture(f) {
        Some(fi) => Some(world.fixtures[fi].pos),
        None => None,
    }
}

/// Whether `consume_materials(inv, req)` succeeds.
fn materials_available(inv: &crate::components::Inventory, req: &Vec<(ItemKind, u32)>) -> (b: bool)
    ensures
        b == consume_materials(inv@, req@) is Some,
{
    let mut cur = inv.copy();
    let mut j: usize = 0;
    assert(req@.skip(0) =~= req@);
    while j < req.len()
        invariant
            j <= req@.len(),
            consume_materials(cur@, req@.skip(j as int)) == consume_materials(inv@, req@),
        decreases req@.len() - j,
    {
        let (k, q) = req[j];
        proof {
            assert(req@.skip(j as int)[0] == req@[j as int]);
            assert(req@.skip(j as int).drop_first() =~= req@.skip(j as int + 1));
        }
        if !try_take_items(&mut cur, k, q) {
            return false;
        }
        j = j + 1;
    }
    assert(req@.skip(req@.len() as int) =~= Seq::<(ItemKind, u32)>::empty());
    true
}

/// Whether stepping `toil` for pawn `pi` can go ahead (`toil_ok`).
pub fn toil_check(world: &SimWorld, pi: usize, toil: &ToilKind) -> (ok: bool)
    requires
        world.wf(),
        pi < world.pawns@.len(),
    ensures
        ok == toil_ok(world, pi as int, *toil),
{
    let pos = world.pawns[pi].pos;
    let pid = world.pawns[pi].pawn.id;
    match toil {
        ToilKind::MoveTo { target, path } => {
            if path.len() == 0 {
                return pos == *target;
            }
            let next = path[0];
            let step_ok = manhattan_wide(pos, next) == 1;
            let tile_ok = match world.pawn_tiles.get(pos) {
                Some(found) => found.0 == pid.0,
                None => true,
            };
            let end_ok = path.len() > 1 || next == *target;
            step_ok && tile_ok && end_ok
        },
        ToilKind::PickUpItem { item_id } => {
            match world.find_item(*item_id) {
                None => false,
                Some(ii) => match world.items[ii].relation {
                    ItemRelation::CarriedBy(_) => true,
                    ItemRelation::InFixture(f) => match fixture_pos_of(world, f) {
                        Some(fp) => manhattan_wide(pos, fp) <= 2147483647,
                        None => false,
                    },
                    ItemRelation::OnGround(t) => {
                        let d = manhattan_wide(pos, t);
                        if d > 2147483647 {
                            false
                        } else if d <= 1 {
                            match world.item_tiles.get(t) {
                                Some(x) => x.0 == item_id.0,
                                None => true,
                            }
                        } else {
                            true
                        }
                    },
                },
            }
        },
        ToilKind::PutDownItem { item_id, .. } => world.pawns[pi].pawn.inventory.contains(item_id)
            && world.find_item(*item_id).is_some(),
        ToilKind::Plant { seed_id, tile_id } => {
            match world.find_item(*seed_id) {
                None => false,
                Some(ii) => {
                    let d = manhattan_wide(pos, *tile_id);
                    world.items[ii].item.kind == ItemKind::Berry && world.items[ii].relation
                        == ItemRelation::CarriedBy(pid) && world.pawns[pi].pawn.inventory.contains(
                        seed_id,
                    ) && d <= 2147483647 && (d > 1 || (!world.fixture_index.contains_raw(u64::MAX)
                        && world.next_entity < u64::MAX))
                },
            }
        },
        ToilKind::Consume { item_id } => {
            match world.find_item(*item_id) {
                None => false,
                Some(ii) => world.pawns[pi].pawn.inventory.contains(item_id)
                    && world.items[ii].relation == ItemRelation::CarriedBy(pid)
                    && world.items[ii].item.kind == ItemKind::Berry,
            }
        },
        ToilKind::Sleep { fixture_id } => {
            match world.find_fixture(*fixture_id) {
                None => false,
                Some(fi) => world.fixtures[fi].fixture.kind == FixtureKind::SleepingPad
                    && manhattan_wide(pos, world.fixtures[fi].pos) <= 1,
            }
        },
        ToilKind::PlaceConstructionSite { .. } => !world.fixture_index.contains_raw(u64::MAX)
            && world.next_entity < u64::MAX,
        ToilKind::Build { fixture_id } => {
            match world.find_fixture(*fixture_id) {
                None => false,
                Some(fi) => {
                    if world.fixtures[fi].fixture.kind != FixtureKind::ConstructionSite {
                        return false;
                    }
                    match &world.fixtures[fi].site {
                        None => false,
                        Some(cs) => cs.work_left > 1 || materials_available(
                            &world.fixtures[fi].fixture.inventory,
                            &cs.building_spec.required_items,
                        ),
                    }
                },
            }
        },
        ToilKind::Harvest { fixture_id } => {
            match world.find_fixture(*fixture_id) {
                None => false,
                Some(fi) => {
                    let ready = match world.fixtures[fi].harvestable {
                        Some(h) => h.countdown == 0 && h.seq_num < u32::MAX,
                        None => false,
                    };
                    manhattan_wide(pos, world.fixtures[fi].pos) == 1 && ready
                        && world.fixtures[fi].fixture.kind == FixtureKind::BerryBush
                        && !world.item_index.contains_raw(u64::MAX) && world.next_entity < u64::MAX
                },
            }
        },
        ToilKind::StoreItem { item_id, target_fixture_id } => {
            match world.find_item(*item_id) {
                None => false,
                Some(ii) => world.pawns[pi].pawn.inventory.contains(item_id)
                    && world.items[ii].relation == ItemRelation::CarriedBy(pid)
                    && world.find_fixture(*target_fixture_id).is_some(),
            }
        },
    }
}


// ---- a pawn's job ----

/// Why stepping a pawn's job cannot go ahead (the step would panic).
#[derive(Debug, Clone, Copy, PartialEq, Eq, Structural)]
pub enum StepFault {
    /// The pawn has a job but no plan.
    NoPlan(PawnId),
    /// The pawn's plan has no toil left.
    NoToil(PawnId),
    /// The current toil's preconditions do not hold (`toil_ok`).
    ToilRefused(PawnId),
}

/// `b` equals `a` except for the job of pawn `pi`.
pub open spec fn eq_but_job(a: &SimWorld, b: &SimWorld, pi: int) -> bool {
    &&& 0 <= pi < a.pawns@.len()
    &&& b.pawns@.len() == a.pawns@.len()
    &&& forall|j: int| 0 <= j < a.pawns@.len() && j != pi ==> b.pawns@[j] == a.pawns@[j]
    &&& b.pawns@[pi] == (PawnEntity { job: b.pawns@[pi].job, ..a.pawns@[pi] })
    &&& frame(a, b, (Touch { pawns: true, ..touch_none() }))
}

/// The toil records an event carries: the pawn, the toil as it ended, and the
/// failure text when it failed.
pub open spec fn event_of(e: ToilEvent, pid: PawnId, t2: ToilKind, r: ToilResult) -> bool {
    &&& e.pawn_id == pid
    &&& e.toil == t2
    &&& match r {
        ToilResult::Failed(m) => e.failure_reason matches Some(x) && x@ == m@,
        _ => e.failure_reason is None,
    }
}

/// One step of pawn `pi`'s job: an idle pawn does nothing; a job without plan or
/// toil, or a toil whose preconditions fail, is a fault and changes nothing;
/// otherwise the current toil runs (`toil_post`), stays first in the plan while
/// running, and leaves the plan with an event when done or failed.
pub open spec fn pawn_step(w: &SimWorld, pi: int, w2: &SimWorld, out: Result<Option<ToilEvent>, StepFault>) -> bool {
    let p = w.pawns@[pi];
    let pid = p.pawn.id;
    if p.job.kind == JobKind::Idle {
        *w2 == *w && out == Ok::<Option<ToilEvent>, StepFault>(None)
    } else {
        match p.job.plan {
            None => *w2 == *w && out == Err::<Option<ToilEvent>, StepFault>(StepFault::NoPlan(pid)),
            Some(plan) => if plan.toils@.len() == 0 {
                *w2 == *w && out == Err::<Option<ToilEvent>, StepFault>(StepFault::NoToil(pid))
            } else if !toil_ok(w, pi, plan.toils@[0]) {
                *w2 == *w && out == Err::<Option<ToilEvent>, StepFault>(StepFault::ToilRefused(pid))
            } else {
                exists|wa: SimWorld, wb: SimWorld, t2: ToilKind, r: ToilResult|
                    {
                        &&& eq_but_job(w, &wa, pi)
                        &&& toil_post(&wa, pi, plan.toils@[0], &wb, t2, r)
                        &&& eq_but_job(&wb, w2, pi)
                        &&& w2.pawns@[pi].job.kind == p.job.kind
                        &&& w2.pawns@[pi].job.retries == p.job.retries
                        &&& w2.pawns@[pi].job.plan matches Some(p2) && p2.reservations == plan.reservations
                            && p2.toils@ == if r is Running {
                            plan.toils@.update(0, t2)
                        } else {
                            plan.toils@.drop_first()
                        }
                        &&& if r is Running {
                            out == Ok::<Option<ToilEvent>, StepFault>(None)
                        } else {
                            out matches Ok(Some(e)) && event_of(e, pid, t2, r)
                        }
                    }
            },
        }
    }
}

/// Stepping toil `t` reads nothing of pawn `pi`'s job.
proof fn lemma_toil_ok_job_free(w: &SimWorld, wa: &SimWorld, pi: int, t: ToilKind)
    requires
        eq_but_job(w, wa, pi),
    ensures
        toil_ok(w, pi, t) == toil_ok(wa, pi, t),
{
    assert(wa.pawns@[pi].pos == w.pawns@[pi].pos);
    assert(wa.pawns@[pi].pawn == w.pawns@[pi].pawn);
}

/// Step pawn `pi`'s current toil.
pub fn step_pawn(world: &mut SimWorld, pi: usize) -> (out: Result<Option<ToilEvent>, StepFault>)
    requires
        old(world).wf(),
        pi < old(world).pawns@.len(),
    ensures
        final(world).wf(),
        final(world).pawns@.len() == old(world).pawns@.len(),
        out is Err ==> *final(world) == *old(world),
        pawn_step(old(world), pi as int, final(world), out),
{
    let pid = world.pawns[pi].pawn.id;
    if world.pawns[pi].job.kind == JobKind::Idle {
        return Ok(None);
    }
    let ok = match &world.pawns[pi].job.plan {
        None => {
            return Err(StepFault::NoPlan(pid));
        },
        Some(plan) => {
            if plan.toils.len() == 0 {
                return Err(StepFault::NoToil(pid));
            }
            toil_check(world, pi, &plan.toils[0])
        },
    };
    if !ok {
        return Err(StepFault::ToilRefused(pid));
    }
    let ghost w0 = *world;
    let mut plan = world.pawns[pi].job.plan.take().unwrap();
    let ghost plan0 = plan;
    let toil = plan.toils.pop_front().unwrap();
    let ghost wa = *world;
    proof {
        assert(eq_but_job(&w0, &wa, pi as int));
        lemma_toil_ok_job_free(&w0, &wa, pi as int, toil);
        lemma_wf_same_ids(&w0, &wa);
    }
    let (r, t2) = step_toil(world, pi, toil);
    let ghost wb = *world;
    let ghost rg = r;
    let ghost t2g = t2;
    let out = match r {
        ToilResult::Running => {
            plan.toils.push_front(t2);
            Ok(None)
        },
        _ => {
            let reason = r.failure_reason();
            Ok(Some(ToilEvent { pawn_id: pid, toil: t2, failure_reason: reason }))
        },
    };
    world.pawns[pi].job.plan = Some(plan);
    proof {
        assert(eq_but_job(&wb, world, pi as int));
        lemma_wf_same_ids(&wb, world);
        if rg is Running {
            assert(plan.toils@ =~= plan0.toils@.update(0, t2g));
        } else {
            assert(plan.toils@ =~= plan0.toils@.drop_first());
        }
        assert(world.pawns@[pi as int].job.kind == w0.pawns@[pi as int].job.kind);
    }
    out
}


/// The events among the step outcomes `outs`, in order.
pub open spec fn events_of(outs: Seq<Option<ToilEvent>>) -> Seq<ToilEvent>
    decreases outs.len(),
{
    if outs.len() == 0 {
        Seq::empty()
    } else {
        match outs.last() {
            Some(x) => events_of(outs.drop_last()).push(x),
            None => events_of(outs.drop_last()),
        }
    }
}

/// `ws[0]` is `w0`, and for each pawn `j < k` in order, its job step turned
/// `ws[j]` into `ws[j + 1]` without fault, with outcome `outs[j]`.
pub open spec fn steps_trace(w0: SimWorld, ws: Seq<SimWorld>, outs: Seq<Option<ToilEvent>>, k: int) -> bool {
    &&& ws.len() == k + 1
    &&& outs.len() == k
    &&& ws[0] == w0
    &&& forall|j: int| 0 <= j < k ==> #[trigger] pawn_step(&ws[j], j, &ws[j + 1], Ok(outs[j]))
}

/// Step the current toil of every pawn, in order, collecting the events of the
/// toils that ended. Stops at the first pawn whose step is a fault.
pub fn step_jobs(world: &mut SimWorld) -> (r: Result<Vec<ToilEvent>, StepFault>)
    requires
        old(world).wf(),
    ensures
        final(world).wf(),
        final(world).pawns@.len() == old(world).pawns@.len(),
        r matches Ok(evs) ==> exists|ws: Seq<SimWorld>, outs: Seq<Option<ToilEvent>>|
            #[trigger] steps_trace(*old(world), ws, outs, old(world).pawns@.len() as int) && ws.last()
                == *final(world) && evs@ == events_of(outs),
        r matches Err(f) ==> exists|ws: Seq<SimWorld>, outs: Seq<Option<ToilEvent>>|
            #[trigger] steps_trace(*old(world), ws, outs, outs.len() as int) && outs.len()
                < old(world).pawns@.len() && ws.last() == *final(world) && pawn_step(
                final(world),
                outs.len() as int,
                final(world),
                Err(f),
            ),
{
    let ghost w0 = *world;
    let n = world.pawns.len();
    let mut evs: Vec<ToilEvent> = Vec::new();
    let ghost mut ws: Seq<SimWorld> = seq![*world];
    let ghost mut outs: Seq<Option<ToilEvent>> = Seq::empty();
    let mut i: usize = 0;
    while i < n
        invariant
            world.wf(),
            world.pawns@.len() == n,
            n == w0.pawns@.len(),
            w0 == *old(world),
            i <= n,
            steps_trace(w0, ws, outs, i as int),
            ws.last() == *world,
            evs@ == events_of(outs),
        decreases n - i,
    {
        let ghost wm = *world;
        let out = step_pawn(world, i);
        match out {
            Err(f) => {
                proof {
                    assert(*world == wm);
                    assert(pawn_step(world, i as int, world, Err(f)));
                }
                return Err(f);
            },
            Ok(e) => {
                let ghost eg = e;
                match e {
                    Some(x) => {
                        evs.push(x);
                    },
                    None => {},
                }
                proof {
                    let ws0 = ws;
                    let outs0 = outs;
                    ws = ws.push(*world);
                    outs = outs.push(eg);
                    assert(outs.drop_last() =~= outs0);
                    assert forall|j: int| 0 <= j < i + 1 implies #[trigger] pawn_step(
                        &ws[j],
                        j,
                        &ws[j + 1],
                        Ok(outs[j]),
                    ) by {
                        if j < i {
                            assert(ws[j] == ws0[j] && ws[j + 1] == ws0[j + 1] && outs[j] == outs0[j]);
                        } else {
                            assert(ws[j] == wm);
                        }
                    }
                }
            },
        }
        i = i + 1;
    }
    Ok(evs)
}

} // verus!
