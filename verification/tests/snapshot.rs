use stitchlands::components::{Fixture, FixtureKind, Inventory, Item, ItemKind, ItemRelation, Pawn};
use stitchlands::fixed_point::Q40p24;
use stitchlands::grid::{GridConfig, TileId};
use stitchlands::hashing::{fnv1a, fnv1a64_hex};
use stitchlands::ids::{FixtureId, ItemId, PawnId, TaskId};
use stitchlands::playback::Tick;
use stitchlands::snapshot::{
    build_world_snapshot, load_snapshot_into, load_world_snapshot, snapshot_parts, sort_by_id, FixtureEntry,
    ItemEntry, PawnEntry, TaskEntry, WorldSnapshot,
};
use stitchlands::world::SimWorld;

fn pawn(id: u64) -> Pawn {
    Pawn { id: PawnId(id), inventory: Inventory(vec![]), sleep: Q40p24::one(), hunger: Q40p24::from_int(2) }
}

fn sample_snapshot() -> WorldSnapshot {
    WorldSnapshot {
        tick: 7,
        scenario_seed: Some(42),
        pawns: vec![
            PawnEntry { pawn: pawn(1), pos: TileId { x: 2, y: 3 } },
            PawnEntry { pawn: pawn(1000), pos: TileId { x: 4, y: 5 } },
        ],
        items: vec![ItemEntry { item: Item { id: ItemId(2000), kind: ItemKind::Berry, qty: 5 }, pos: TileId { x: 1, y: 1 } }],
        fixtures: vec![FixtureEntry {
            fixture: Fixture { id: FixtureId(3000), kind: FixtureKind::Stockpile, inventory: Inventory(vec![]) },
            pos: TileId { x: 0, y: 0 },
        }],
        tasks: vec![],
    }
}

#[test]
fn hash_stable() {
    let mut m1 = serde_json::Map::new();
    m1.insert("a".to_string(), serde_json::Value::from(1u32));
    m1.insert("b".to_string(), serde_json::Value::from(2u32));
    let mut m2 = serde_json::Map::new();
    m2.insert("a".to_string(), serde_json::Value::from(1u32));
    m2.insert("b".to_string(), serde_json::Value::from(2u32));
    let j1 = serde_json::to_vec(&serde_json::Value::Object(m1)).unwrap();
    let j2 = serde_json::to_vec(&serde_json::Value::Object(m2)).unwrap();
    assert_eq!(fnv1a(&j1), fnv1a(&j2));
}

#[test]
fn fnv1a_known_values() {
    assert_eq!(fnv1a(b""), 0xcbf29ce484222325);
    assert_eq!(fnv1a(b"a"), 0xaf63dc4c8601ec8c);
    assert_eq!(fnv1a(b"foobar"), 0x85944171f73967e8);
    assert_eq!(fnv1a64_hex(b""), "cbf29ce484222325");
    assert_eq!(fnv1a64_hex(b"a"), "af63dc4c8601ec8c");
}

#[test]
fn snapshot_lists_are_sorted_by_id() {
    let snap = build_world_snapshot(
        Tick(3),
        None,
        vec![(pawn(9), TileId::new(0, 0)), (pawn(2), TileId::new(1, 0)), (pawn(5), TileId::new(2, 0))],
        vec![
            (Item { id: ItemId(30), kind: ItemKind::Wood, qty: 1 }, TileId::new(0, 1)),
            (Item { id: ItemId(10), kind: ItemKind::Nails, qty: 2 }, TileId::new(0, 2)),
        ],
        vec![],
        &vec![TaskId(8), TaskId(1), TaskId(4)],
    );
    assert_eq!(snap.tick, 3);
    assert_eq!(snap.scenario_seed, None);
    let ids: Vec<u64> = snap.pawns.iter().map(|e| e.pawn.id.0).collect();
    assert_eq!(ids, vec![2, 5, 9]);
    assert_eq!(snap.pawns[0].pos, TileId::new(1, 0));
    let items: Vec<u64> = snap.items.iter().map(|e| e.item.id.0).collect();
    assert_eq!(items, vec![10, 30]);
    assert_eq!(snap.tasks, vec![TaskEntry { task: TaskId(1) }, TaskEntry { task: TaskId(4) }, TaskEntry { task: TaskId(8) }]);
}

#[test]
fn sorting_keeps_entries_with_equal_ids_in_order() {
    let sorted = sort_by_id(vec![
        ItemEntry { item: Item { id: ItemId(2), kind: ItemKind::Wood, qty: 1 }, pos: TileId::new(0, 0) },
        ItemEntry { item: Item { id: ItemId(1), kind: ItemKind::Wood, qty: 1 }, pos: TileId::new(0, 0) },
        ItemEntry { item: Item { id: ItemId(2), kind: ItemKind::Nails, qty: 1 }, pos: TileId::new(0, 0) },
    ]);
    let kinds: Vec<(u64, ItemKind)> = sorted.iter().map(|e| (e.item.id.0, e.item.kind)).collect();
    assert_eq!(kinds, vec![(1, ItemKind::Wood), (2, ItemKind::Wood), (2, ItemKind::Nails)]);
}

#[test]
fn world_snapshot_round_trip() {
    let snap = sample_snapshot();
    let mut world = SimWorld::new(GridConfig { width: 8, height: 8 });
    load_world_snapshot(&mut world, &snap).unwrap();
    assert_eq!(world.pawns[0].name, "Pawn#1");
    assert_eq!(world.items[0].name, "Item#2000");
    assert_eq!(world.fixtures[0].name, "Fixture#3000");
    assert_eq!(world.items[0].relation, ItemRelation::OnGround(TileId::new(1, 1)));

    let (pawns, items, fixtures, tasks) = snapshot_parts(&world);
    let again = build_world_snapshot(Tick(snap.tick), snap.scenario_seed, pawns, items, fixtures, &tasks);
    assert_eq!(snap.tick, again.tick);
    assert_eq!(snap.scenario_seed, again.scenario_seed);
    assert_eq!(snap.pawns, again.pawns);
    assert_eq!(snap.items, again.items);
    assert_eq!(snap.fixtures, again.fixtures);
    assert_eq!(snap, again);
}

#[test]
fn loading_a_snapshot_takes_its_seed_and_registers_ids() {
    let mut snap = sample_snapshot();
    let mut world = SimWorld::new(GridConfig { width: 8, height: 8 });
    load_snapshot_into(&mut world, &snap, 5).unwrap();
    assert_eq!(world.scenario_seed, Some(42));
    assert_eq!(world.pawn_index.lookup(&PawnId(1000)), Some(Some(world.pawns[1].entity)));

    snap.scenario_seed = None;
    let mut world = SimWorld::new(GridConfig { width: 8, height: 8 });
    load_snapshot_into(&mut world, &snap, 5).unwrap();
    assert_eq!(world.scenario_seed, Some(5));
}

#[test]
fn duplicate_ids_in_a_snapshot_are_refused() {
    let mut snap = sample_snapshot();
    snap.pawns[1].pawn.id = PawnId(1);
    let mut world = SimWorld::new(GridConfig { width: 8, height: 8 });
    assert_eq!(load_snapshot_into(&mut world, &snap, 1).unwrap_err(), "IdIndex already contains id: PawnId(1)");

    let mut world = SimWorld::new(GridConfig { width: 8, height: 8 });
    assert_eq!(
        load_world_snapshot(&mut world, &snap).unwrap_err(),
        "IdIndex already contains id: PawnId(1) entity: Entity(0)"
    );
}
