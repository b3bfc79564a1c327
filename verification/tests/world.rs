use stitchlands::components::{Fixture, FixtureKind, Inventory, Item, ItemKind, ItemRelation, Pawn};
use stitchlands::fixed_point::Q40p24;
use stitchlands::grid::{GridConfig, TileId};
use stitchlands::budget::{reset_edit_budget, EditBudget};
use stitchlands::ids::{FixtureId, HasSimId, ItemId, PawnId};
use stitchlands::tasks::{TaskSpec, WorkPriority};
use stitchlands::world::SimWorld;

fn populated() -> SimWorld {
    let mut w = SimWorld::new(GridConfig { width: 4, height: 4 });
    let pid = w.pawn_index.alloc_id(None);
    w.add_pawn(
        "Pawn".to_string(),
        Pawn { id: pid, inventory: Inventory(vec![]), sleep: Q40p24::one(), hunger: Q40p24::one() },
        TileId::new(1, 2),
        WorkPriority(vec![]),
    );
    w.pawn_tiles.move_id(None, TileId::new(1, 2), pid);
    let fid = w.fixture_index.alloc_id(None);
    w.add_fixture(
        "Fixture".to_string(),
        Fixture { id: fid, kind: FixtureKind::Stockpile, inventory: Inventory(vec![]) },
        TileId::new(3, 0),
        None,
        None,
    );
    w.fixture_tiles.move_id(None, TileId::new(3, 0), fid);
    w
}

#[test]
fn items_join_the_tile_of_their_holder() {
    let w = populated();
    let item = Item { id: ItemId(1), kind: ItemKind::Berry, qty: 2 };

    let on_ground = item.join(ItemRelation::OnGround(TileId::new(0, 3)), &w).unwrap();
    assert_eq!(on_ground.pos, TileId::new(0, 3));
    assert_eq!(on_ground.item, item);

    let carried = item.join(ItemRelation::CarriedBy(PawnId(1001)), &w).unwrap();
    assert_eq!(carried.pos, TileId::new(1, 2));
    assert_eq!(carried.relation, ItemRelation::CarriedBy(PawnId(1001)));

    let stored = item.join_no_pawns(ItemRelation::InFixture(FixtureId(1001)), &w).unwrap();
    assert_eq!(stored.pos, TileId::new(3, 0));

    assert!(item.join(ItemRelation::CarriedBy(PawnId(7)), &w).is_none());
    assert!(item.join(ItemRelation::InFixture(FixtureId(7)), &w).is_none());
}

#[test]
fn cleanup_empties_the_world_but_keeps_map_and_tasks() {
    let mut w = populated();
    w.scenario_seed = Some(5);
    let task = w.task_board.add_task(TaskSpec::Plant(TileId::new(0, 0), ItemKind::Berry));
    w.cleanup();
    assert!(w.pawns.is_empty());
    assert!(w.items.is_empty());
    assert!(w.fixtures.is_empty());
    assert!(w.pawn_tiles.get(TileId::new(1, 2)).is_none());
    assert!(w.fixture_tiles.get(TileId::new(3, 0)).is_none());
    assert_eq!(w.scenario_seed, None);
    assert_eq!(w.grid.cfg, GridConfig { width: 4, height: 4 });
    assert!(w.task_board.get(task).is_some());
    // Ids start afresh once the indices are emptied (an empty index hands out 1001).
    assert_eq!(w.pawn_index.alloc_id(None), PawnId(1001));
}

#[test]
fn things_report_their_ids_and_budgets_reset() {
    let pawn = Pawn { id: PawnId(4), inventory: Inventory(vec![]), sleep: Q40p24::one(), hunger: Q40p24::one() };
    assert_eq!(pawn.id(), PawnId(4));
    let item = Item { id: ItemId(8), kind: ItemKind::Wood, qty: 1 };
    assert_eq!(HasSimId::id(&item), ItemId(8));
    let fixture = Fixture { id: FixtureId(2), kind: FixtureKind::Cabin, inventory: Inventory(vec![]) };
    assert_eq!(HasSimId::id(&fixture), FixtureId(2));

    let mut budget = EditBudget::default();
    assert_eq!(budget, EditBudget { per_tick: 16, remaining: 16 });
    budget.remaining = 3;
    reset_edit_budget(&mut budget);
    assert_eq!(budget.remaining, 16);
}
