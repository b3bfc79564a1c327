use stitchlands::components::{Fixture, FixtureKind, Harvestable, Inventory, Item, ItemKind, ItemRelation, Pawn};
use stitchlands::fixed_point::Q40p24;
use stitchlands::grid::{GridConfig, TileId};
use stitchlands::invariants::{run_invariant_checks, validate_world, InvariantConfig, InvariantMode};
use stitchlands::tasks::WorkPriority;
use stitchlands::world::SimWorld;

fn world(width: u32, height: u32) -> SimWorld {
    SimWorld::new(GridConfig { width, height })
}

#[test]
fn valid_world_passes() {
    let mut w = world(5, 5);

    // A pawn at (1,1) with a carried item
    let pawn_id = w.pawn_index.alloc_id(None);
    let carried_item_id = w.item_index.alloc_id(None);
    w.add_pawn(
        "Pawn".to_string(),
        Pawn {
            id: pawn_id,
            inventory: Inventory(vec![(carried_item_id, ItemKind::Berry)]),
            sleep: Q40p24::one(),
            hunger: Q40p24::one(),
        },
        TileId::new(1, 1),
        WorkPriority(vec![]),
    );
    w.add_item(
        "Item".to_string(),
        Item { id: carried_item_id, kind: ItemKind::Berry, qty: 1 },
        ItemRelation::CarriedBy(pawn_id),
    );

    // A berry bush at (2,2) holding an item, with a countdown
    let fixture_id = w.fixture_index.alloc_id(None);
    let fixture_item_id = w.item_index.alloc_id(None);
    w.add_fixture(
        "Fixture".to_string(),
        Fixture {
            id: fixture_id,
            kind: FixtureKind::BerryBush,
            inventory: Inventory(vec![(fixture_item_id, ItemKind::Berry)]),
        },
        TileId::new(2, 2),
        Some(Harvestable { countdown: 100, seq_num: 0 }),
        None,
    );
    w.add_item(
        "Item".to_string(),
        Item { id: fixture_item_id, kind: ItemKind::Berry, qty: 1 },
        ItemRelation::InFixture(fixture_id),
    );

    // A ground item at (3,3)
    let ground_item_id = w.item_index.alloc_id(None);
    w.add_item(
        "Item".to_string(),
        Item { id: ground_item_id, kind: ItemKind::Berry, qty: 1 },
        ItemRelation::OnGround(TileId::new(3, 3)),
    );
    w.item_tiles.move_id(None, TileId::new(3, 3), ground_item_id);

    let errs = validate_world(&w);
    assert!(errs.is_empty(), "unexpected errors: {:?}", errs);
}

#[test]
fn detects_carried_item_not_in_inventory() {
    let mut w = world(3, 3);
    let pid = w.pawn_index.alloc_id(None);
    let iid = w.item_index.alloc_id(None);
    w.add_pawn(
        "Pawn".to_string(),
        Pawn { id: pid, inventory: Inventory(vec![]), sleep: Q40p24::one(), hunger: Q40p24::one() },
        TileId::new(0, 0),
        WorkPriority(vec![]),
    );
    w.add_item("Item".to_string(), Item { id: iid, kind: ItemKind::Berry, qty: 1 }, ItemRelation::CarriedBy(pid));

    let errs = validate_world(&w);
    assert!(
        errs.iter().any(|e| e.contains("carried") && e.contains("not in pawn inventory")),
        "unexpected errors: {:?}",
        errs
    );
}

#[test]
fn reports_each_kind_of_problem_with_its_text() {
    let mut w = world(3, 3);
    // A berry bush without harvest state, out of the map.
    let fid = w.fixture_index.alloc_id(None);
    w.add_fixture(
        "Fixture".to_string(),
        Fixture { id: fid, kind: FixtureKind::BerryBush, inventory: Inventory(vec![]) },
        TileId::new(7, 0),
        None,
        None,
    );
    // A ground item with quantity zero missing from the tile index.
    let iid = w.item_index.alloc_id(None);
    w.add_item("Item".to_string(), Item { id: iid, kind: ItemKind::Wood, qty: 0 }, ItemRelation::OnGround(TileId::new(1, 1)));

    let errs = validate_world(&w);
    assert_eq!(
        errs,
        vec![
            "BerryBush FixtureId(1001) has None harvest_countdown; expected Some(>0 or reset)".to_string(),
            "Fixture FixtureId(1001) out of bounds at TileId { x: 7, y: 0 }".to_string(),
            "Fixture FixtureId(1001) tile index mismatch at TileId { x: 7, y: 0 }".to_string(),
            "Item ItemId(1001) has qty=0".to_string(),
            "Item ItemId(1001) tile index mismatch at TileId { x: 1, y: 1 }".to_string(),
        ]
    );
}

fn broken_world() -> SimWorld {
    let mut w = world(3, 3);
    let iid = w.item_index.alloc_id(None);
    w.add_item("Item".to_string(), Item { id: iid, kind: ItemKind::Wood, qty: 0 }, ItemRelation::OnGround(TileId::new(1, 1)));
    w
}

#[test]
fn invariant_modes_decide_what_violations_become() {
    let clean = world(2, 2);
    assert_eq!(run_invariant_checks(&clean, InvariantConfig::default()), Ok(vec![]));

    let w = broken_world();
    assert_eq!(InvariantConfig::default().mode, InvariantMode::Panic);
    assert_eq!(
        run_invariant_checks(&w, InvariantConfig { mode: InvariantMode::Panic }),
        Err("Invariant violations (2):\nItem ItemId(1001) has qty=0\nItem ItemId(1001) tile index mismatch at TileId { x: 1, y: 1 }"
            .to_string())
    );
    assert_eq!(
        run_invariant_checks(&w, InvariantConfig { mode: InvariantMode::Warn }),
        Ok(vec![
            "Item ItemId(1001) has qty=0".to_string(),
            "Item ItemId(1001) tile index mismatch at TileId { x: 1, y: 1 }".to_string(),
        ])
    );
    assert_eq!(run_invariant_checks(&w, InvariantConfig { mode: InvariantMode::Silent }), Ok(vec![]));
}

#[test]
fn reports_duplicate_item_ids_as_index_mismatch() {
    let mut w = world(3, 3);
    let iid = w.item_index.alloc_id(None);
    w.add_item("Item".to_string(), Item { id: iid, kind: ItemKind::Berry, qty: 1 }, ItemRelation::OnGround(TileId::new(1, 1)));
    w.item_tiles.move_id(None, TileId::new(1, 1), iid);
    w.add_item("Item".to_string(), Item { id: iid, kind: ItemKind::Berry, qty: 1 }, ItemRelation::OnGround(TileId::new(1, 1)));
    let errs = validate_world(&w);
    assert!(errs.iter().any(|e| e.contains("IdIndex mismatch")), "unexpected errors: {:?}", errs);
}
