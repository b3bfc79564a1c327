use stitchlands::components::{FixtureKind, ItemKind, ItemRelation};
use stitchlands::grid::TileId;
use stitchlands::ids::{FixtureId, ItemId, PawnId};
use stitchlands::invariants::validate_world;
use stitchlands::loader::{clamp_pos, load_scenario_from_def, norm_rect, resolve_positions};
use stitchlands::scenario::{FixtureDef, ItemDef, MapDef, MapSize, PawnDef, ScenarioDef, Terrain, TileDef};
use stitchlands::tasks::TaskSpecKind;
use stitchlands::world::SimWorld;

fn in_bounds(pos: TileId, w: i32, h: i32) -> bool {
    pos.x >= 0 && pos.x < w && pos.y >= 0 && pos.y < h
}

fn berry(id: Option<u64>) -> ItemDef {
    ItemDef { id, kind: "Berry".to_string(), qty: 1, pos: None }
}

fn stockpile(id: Option<u64>, pos: Option<TileId>) -> FixtureDef {
    FixtureDef { id, kind: "Stockpile".to_string(), pos, inventory: vec![], harvest_countdown: None }
}

fn load(def: ScenarioDef) -> SimWorld {
    load_scenario_from_def(def, 1).unwrap()
}

#[test]
fn scenario_loading_completes_optional_fields() {
    let def = ScenarioDef {
        sim_seed: Some(123),
        map: MapDef { size: MapSize { x: 4, y: 4 }, tiles: vec![], schematic: None },
        pawns: vec![
            PawnDef {
                id: Some(10),
                name: Some("Ada".to_string()),
                pos: None,
                sleep: Some(50),
                hunger: Some(5),
                inventory: vec![],
                priorities: Default::default(),
            },
            PawnDef {
                id: None,
                name: None,
                pos: None,
                sleep: Some(50),
                hunger: Some(50),
                inventory: vec![],
                priorities: Default::default(),
            },
        ],
        fixtures: vec![stockpile(None, None)],
        tasks: vec![],
    };
    let world = load(def);

    assert_eq!(world.pawns.len(), 2);
    let mut ids: Vec<u64> = world.pawns.iter().map(|p| p.pawn.id.0).collect();
    ids.sort_unstable();
    assert_eq!(ids[0], 10);
    assert_eq!(ids[1], 1000);
    for p in world.pawns.iter() {
        assert!(in_bounds(p.pos, 4, 4));
    }
    let names: Vec<String> = world.pawns.iter().map(|p| p.name.clone()).collect();
    assert!(names.contains(&"Ada".to_string()));
    assert!(names.iter().any(|s| s == "Pawn2"));

    assert_eq!(world.items.len(), 0);

    assert_eq!(world.fixtures.len(), 1);
    assert!(world.fixtures[0].fixture.id.0 >= 1000);
    assert!(in_bounds(world.fixtures[0].pos, 4, 4));
    assert_eq!(world.scenario_seed, Some(123));
}

fn one_berry_on_tile(seed: u64, x: i32, y: i32) -> ScenarioDef {
    ScenarioDef {
        sim_seed: Some(seed),
        map: MapDef {
            size: MapSize { x: 5, y: 5 },
            tiles: vec![TileDef { pos: TileId::new(x, y), walkable: true, terrain: Terrain::Grass, item: Some(berry(None)) }],
            schematic: None,
        },
        pawns: vec![],
        fixtures: vec![],
        tasks: vec![],
    }
}

#[test]
fn scenario_loading_spawns_map_items_and_indices_ok() {
    let world = load(one_berry_on_tile(7, 2, 3));
    assert_eq!(world.items.len(), 1);
    let it = &world.items[0];
    assert!(it.item.id.0 >= 1000);
    let pos = match it.relation {
        ItemRelation::OnGround(p) => p,
        _ => panic!("expected OnGround item"),
    };
    assert!(in_bounds(pos, 5, 5));
    assert_eq!(world.item_tiles.get(pos), Some(it.item.id));
}

#[test]
fn scenario_map_tile_item_respects_tile_position() {
    let world = load(one_berry_on_tile(7, 2, 3));
    assert_eq!(world.items.len(), 1);
    let pos = match world.items[0].relation {
        ItemRelation::OnGround(p) => p,
        _ => panic!("expected OnGround item"),
    };
    assert_eq!(pos, TileId::new(2, 3));
}

#[test]
fn scenario_loading_assigns_pawn_names_positions_and_index() {
    let def = ScenarioDef {
        sim_seed: Some(99),
        map: MapDef { size: MapSize { x: 6, y: 4 }, tiles: vec![], schematic: None },
        pawns: vec![
            PawnDef { id: Some(100), name: Some("Eve".to_string()), pos: Some(TileId::new(0, 0)), ..Default::default() },
            PawnDef::default(),
        ],
        fixtures: vec![],
        tasks: vec![],
    };
    let world = load(def);
    assert_eq!(world.pawns.len(), 2);

    let eve = world
        .pawns
        .iter()
        .find(|p| p.pawn.id.0 == 100 && p.name == "Eve")
        .expect("Eve pawn present");
    assert!(in_bounds(eve.pos, 6, 4));

    let mut seen = std::collections::HashSet::new();
    for p in world.pawns.iter() {
        assert!(in_bounds(p.pos, 6, 4));
        assert!(seen.insert((p.pos.x, p.pos.y)), "pawn positions must be unique");
    }
    for p in world.pawns.iter() {
        assert_eq!(world.pawn_tiles.get(p.pos), Some(p.pawn.id));
    }
}

#[test]
fn scenario_pawn_inventory_items_are_carried_and_not_on_ground() {
    let def = ScenarioDef {
        sim_seed: Some(11),
        map: MapDef { size: MapSize { x: 5, y: 5 }, tiles: vec![], schematic: None },
        pawns: vec![PawnDef {
            id: Some(200),
            name: Some("Kai".to_string()),
            pos: Some(TileId::new(2, 2)),
            inventory: vec![berry(Some(3000))],
            ..Default::default()
        }],
        fixtures: vec![],
        tasks: vec![],
    };
    let world = load(def);
    assert_eq!(world.pawns.len(), 1);
    let pawn = &world.pawns[0].pawn;
    let (item_id, _) = pawn.inventory.0[0];
    let item = world.items.iter().find(|i| i.item.id == item_id).unwrap();
    assert_eq!(item.relation, ItemRelation::CarriedBy(pawn.id));
}

#[test]
fn scenario_ground_item_is_not_in_any_inventory() {
    let def = ScenarioDef {
        sim_seed: Some(13),
        map: MapDef {
            size: MapSize { x: 4, y: 4 },
            tiles: vec![TileDef { pos: TileId::new(1, 1), walkable: true, terrain: Terrain::Grass, item: Some(berry(None)) }],
            schematic: None,
        },
        pawns: vec![PawnDef::default()],
        fixtures: vec![stockpile(None, None)],
        tasks: vec![],
    };
    let world = load(def);
    assert_eq!(world.items.len(), 1);
    let ground_item_id = world.items[0].item.id;
    assert!(matches!(world.items[0].relation, ItemRelation::OnGround(_)));
    for p in world.pawns.iter() {
        assert!(!p.pawn.inventory.contains(&ground_item_id));
    }
    for f in world.fixtures.iter() {
        assert!(!f.fixture.inventory.contains(&ground_item_id));
    }
}

#[test]
fn scenario_fixture_inventory_items_are_infixture_and_not_on_ground() {
    let def = ScenarioDef {
        sim_seed: Some(5),
        map: MapDef { size: MapSize { x: 4, y: 4 }, tiles: vec![], schematic: None },
        pawns: vec![],
        fixtures: vec![FixtureDef {
            id: Some(123),
            kind: "BerryBush".to_string(),
            pos: Some(TileId::new(1, 1)),
            inventory: vec![berry(None)],
            harvest_countdown: None,
        }],
        tasks: vec![],
    };
    let world = load(def);
    assert_eq!(world.fixtures.len(), 1);
    let f = &world.fixtures[0];
    assert_eq!(f.fixture.id.0, 123);
    assert_eq!(f.fixture.kind, FixtureKind::BerryBush);
    assert_eq!(f.harvestable.map(|h| h.countdown), Some(100));
    assert_eq!(f.pos, TileId::new(1, 1));
    let (item_id, _) = f.fixture.inventory.0.first().copied().expect("fixture inventory item present");
    let item = world.items.iter().find(|i| i.item.id == item_id).unwrap();
    assert_eq!(item.relation, ItemRelation::InFixture(f.fixture.id));
}

#[test]
fn schematic_places_pawns_and_fixtures() {
    let schematic = "\n. . . .\n. P1 . .\n. . F5 .\nP2 . . .\n".to_string();
    let def = ScenarioDef {
        sim_seed: Some(1),
        map: MapDef { size: MapSize { x: 4, y: 4 }, tiles: vec![], schematic: Some(schematic) },
        pawns: vec![
            PawnDef { id: Some(1), name: Some("Sam".to_string()), ..Default::default() },
            PawnDef { id: Some(2), name: Some("Bil".to_string()), ..Default::default() },
        ],
        fixtures: vec![stockpile(Some(5), None)],
        tasks: vec![],
    };
    let world = load(def);
    let mut p1_ok = false;
    let mut p2_ok = false;
    for p in world.pawns.iter() {
        match p.pawn.id.0 {
            1 => {
                assert_eq!(p.pos, TileId::new(1, 1));
                p1_ok = true;
            },
            2 => {
                assert_eq!(p.pos, TileId::new(0, 3));
                p2_ok = true;
            },
            _ => {},
        }
    }
    assert!(p1_ok && p2_ok);
    let f = world.fixtures.iter().find(|f| f.fixture.id.0 == 5).unwrap();
    assert_eq!(f.pos, TileId::new(2, 2));
}

/// A small scenario written out: three
/// pawns (Sam with item 1, Billy with item 2, Ava), a stockpile holding item
/// 2002, and a berry lying at (3, 2).
fn small_scenario() -> ScenarioDef {
    ScenarioDef {
        sim_seed: Some(42),
        map: MapDef {
            size: MapSize { x: 8, y: 8 },
            tiles: vec![TileDef { pos: TileId::new(3, 2), walkable: true, terrain: Terrain::Grass, item: Some(berry(None)) }],
            schematic: None,
        },
        pawns: vec![
            PawnDef { id: Some(1), name: Some("Sam".to_string()), pos: Some(TileId::new(1, 1)), inventory: vec![berry(Some(1))], ..Default::default() },
            PawnDef { id: Some(2), name: Some("Billy".to_string()), pos: Some(TileId::new(0, 5)), inventory: vec![berry(Some(2))], ..Default::default() },
            PawnDef { id: None, name: Some("Ava".to_string()), ..Default::default() },
        ],
        fixtures: vec![FixtureDef {
            id: Some(1),
            kind: "Stockpile".to_string(),
            pos: Some(TileId::new(2, 2)),
            inventory: vec![ItemDef { id: Some(2002), kind: "Wood".to_string(), qty: 3, pos: None }],
            harvest_countdown: None,
        }],
        tasks: vec![],
    }
}

#[test]
fn scenario_toml_loads_and_passes_invariants() {
    let world = load(small_scenario());
    assert_eq!(world.pawns.len(), 3, "expected three pawns (Sam, Billy, Ava)");
    let p1 = world.pawns.iter().find(|p| p.pawn.id.0 == 1).expect("pawn id=1");
    let p2 = world.pawns.iter().find(|p| p.pawn.id.0 == 2).expect("pawn id=2");
    assert_eq!(p1.pos, TileId::new(1, 1));
    assert_eq!(p2.pos, TileId::new(0, 5));
    let f1 = world.fixtures.iter().find(|f| f.fixture.id.0 == 1).expect("fixture id=1 present");
    assert_eq!(f1.pos, TileId::new(2, 2));

    let ground: Vec<(ItemId, TileId)> = world
        .items
        .iter()
        .filter_map(|i| match i.relation {
            ItemRelation::OnGround(p) => Some((i.item.id, p)),
            _ => None,
        })
        .collect();
    assert_eq!(ground.len(), 1, "expected exactly one ground item");
    let (ground_id, ground_pos) = ground[0];
    assert_eq!(ground_pos, TileId::new(3, 2));
    for p in world.pawns.iter() {
        assert!(!p.pawn.inventory.contains(&ground_id));
    }
    for f in world.fixtures.iter() {
        assert!(!f.fixture.inventory.contains(&ground_id));
    }
    let rel = |id: u64| world.items.iter().find(|i| i.item.id == ItemId(id)).map(|i| i.relation);
    assert_eq!(rel(1).expect("item#1 relation"), ItemRelation::CarriedBy(PawnId(1)));
    assert_eq!(rel(2).expect("item#2 relation"), ItemRelation::CarriedBy(PawnId(2)));
    assert_eq!(rel(2002).expect("item#2002 relation"), ItemRelation::InFixture(FixtureId(1)));

    let errs = validate_world(&world);
    assert!(errs.is_empty(), "invariants failed: {:?}", errs);
}

// ---- further cases ----

#[test]
fn loaded_item_without_quantity_fails_validation() {
    let mut def = small_scenario();
    def.pawns[0].inventory[0].qty = 0;
    let world = load(def);
    assert!(!validate_world(&world).is_empty());
}

#[test]
fn loading_fills_meters_names_and_priorities() {
    let def = ScenarioDef {
        sim_seed: None,
        map: MapDef { size: MapSize { x: 3, y: 3 }, tiles: vec![], schematic: None },
        pawns: vec![PawnDef { sleep: None, hunger: Some(40), pos: Some(TileId::new(2, 1)), ..Default::default() }],
        fixtures: vec![],
        tasks: vec![],
    };
    let world = load_scenario_from_def(def, 77).unwrap();
    assert_eq!(world.scenario_seed, Some(77));
    let p = &world.pawns[0];
    assert_eq!(p.name, "Pawn1");
    assert_eq!(p.pawn.sleep.to_raw(), 100 * 16_777_216);
    assert_eq!(p.pawn.hunger.to_raw(), 40 * 16_777_216);
    assert_eq!(p.priorities.0, vec![TaskSpecKind::Harvest, TaskSpecKind::Plant]);
    assert_eq!(p.pos, TileId::new(2, 1));
    assert_eq!(world.pawn_index.lookup(&p.pawn.id), Some(Some(p.entity)));
}

#[test]
fn map_tiles_decide_walkability() {
    let def = ScenarioDef {
        sim_seed: Some(1),
        map: MapDef {
            size: MapSize { x: 3, y: 2 },
            tiles: vec![
                TileDef { pos: TileId::new(1, 0), walkable: false, terrain: Terrain::Grass, item: None },
                TileDef { pos: TileId::new(2, 1), walkable: false, terrain: Terrain::Grass, item: None },
                TileDef { pos: TileId::new(2, 1), walkable: true, terrain: Terrain::Grass, item: None },
            ],
            schematic: None,
        },
        pawns: vec![],
        fixtures: vec![],
        tasks: vec![],
    };
    let world = load(def);
    assert_eq!(world.grid.walkable.get(TileId::new(1, 0)), Some(&false));
    assert_eq!(world.grid.walkable.get(TileId::new(2, 1)), Some(&true));
    assert_eq!(world.grid.walkable.get(TileId::new(0, 0)), Some(&true));
}

#[test]
fn taken_tile_moves_the_later_pawn() {
    let def = ScenarioDef {
        sim_seed: Some(3),
        map: MapDef { size: MapSize { x: 3, y: 3 }, tiles: vec![], schematic: None },
        pawns: vec![
            PawnDef { pos: Some(TileId::new(1, 1)), ..Default::default() },
            PawnDef { pos: Some(TileId::new(1, 1)), ..Default::default() },
        ],
        fixtures: vec![],
        tasks: vec![],
    };
    let world = load(def);
    assert_eq!(world.pawns[0].pos, TileId::new(1, 1));
    assert_ne!(world.pawns[1].pos, TileId::new(1, 1));
    assert!(in_bounds(world.pawns[1].pos, 3, 3));
}

#[test]
fn duplicate_pawn_id_is_refused() {
    let def = ScenarioDef {
        sim_seed: Some(3),
        map: MapDef { size: MapSize { x: 3, y: 3 }, tiles: vec![], schematic: None },
        pawns: vec![PawnDef { id: Some(4), ..Default::default() }, PawnDef { id: Some(4), ..Default::default() }],
        fixtures: vec![],
        tasks: vec![],
    };
    assert_eq!(load_scenario_from_def(def, 1).unwrap_err(), "IdIndex already contains id: PawnId(4)");
}

#[test]
fn unknown_kinds_are_refused() {
    let mut def = one_berry_on_tile(1, 0, 0);
    def.map.tiles[0].item.as_mut().unwrap().kind = "Gold".to_string();
    assert_eq!(load_scenario_from_def(def, 1).unwrap_err(), "Invalid ItemKind: Gold");
    let def = ScenarioDef {
        sim_seed: Some(3),
        map: MapDef { size: MapSize { x: 3, y: 3 }, tiles: vec![], schematic: None },
        pawns: vec![],
        fixtures: vec![FixtureDef { kind: "Castle:big".to_string(), ..Default::default() }],
        tasks: vec![],
    };
    assert_eq!(load_scenario_from_def(def, 1).unwrap_err(), "Invalid FixtureKind: Castle");
}

#[test]
fn kind_suffix_after_colon_is_ignored() {
    let mut def = one_berry_on_tile(1, 4, 4);
    def.map.tiles[0].item.as_mut().unwrap().kind = "Wood:oak".to_string();
    let world = load(def);
    assert_eq!(world.items[0].item.kind, ItemKind::Wood);
}

#[test]
fn empty_map_cannot_place_things_without_position() {
    let def = ScenarioDef {
        sim_seed: Some(3),
        map: MapDef { size: MapSize { x: 0, y: 0 }, tiles: vec![], schematic: None },
        pawns: vec![PawnDef::default()],
        fixtures: vec![],
        tasks: vec![],
    };
    assert_eq!(load_scenario_from_def(def, 1).unwrap_err(), "cannot sample empty range");
}

fn schematic_def(s: &str, pawn_pos: Option<TileId>) -> ScenarioDef {
    ScenarioDef {
        sim_seed: Some(1),
        map: MapDef { size: MapSize { x: 2, y: 2 }, tiles: vec![], schematic: Some(s.to_string()) },
        pawns: vec![PawnDef { id: Some(1), pos: pawn_pos, ..Default::default() }],
        fixtures: vec![stockpile(Some(5), None)],
        tasks: vec![],
    }
}

#[test]
fn schematic_errors() {
    let e = |s: &str, p: Option<TileId>| load_scenario_from_def(schematic_def(s, p), 1).unwrap_err();
    assert_eq!(e(". .\n", None), "schematic row count 1 differs from map.size.y 2");
    assert_eq!(e(". .\n. . .\n", None), "schematic column count at row 1 is 3, expected 2");
    assert_eq!(e("P1 P1\n. .\n", None), "Pawn id 1 appears multiple times in schematic");
    assert_eq!(e("F5 .\n. F5\n", None), "Fixture id 5 appears multiple times in schematic");
    assert_eq!(e("Px .\n. .\n", None), "Invalid pawn id in schematic");
    assert_eq!(e("F .\n. .\n", None), "Invalid fixture id in schematic");
    assert_eq!(e("X .\n. .\n", None), "Unknown token in schematic: 'X'");
    assert_eq!(e("P9 .\n. .\n", None), "Schematic references Pawn id 9 not present in [pawns] list");
    assert_eq!(e("F9 .\n. .\n", None), "Schematic references Fixture id 9 not present in [fixtures] list");
    assert_eq!(
        e(". P1\n. .\n", Some(TileId::new(0, 0))),
        "Schematic position for Pawn id=1 conflicts with explicit pos: TileId { x: 1, y: 0 } vs TileId { x: 0, y: 0 }"
    );
}

#[test]
fn schematic_agreeing_with_explicit_position() {
    let def = schematic_def("   . P1  \n\n F5 . \n", Some(TileId::new(1, 0)));
    let (pw, fw) = resolve_positions(&def).unwrap();
    assert_eq!(pw, vec![Some(TileId::new(1, 0))]);
    assert_eq!(fw, vec![Some(TileId::new(0, 1))]);
    let world = load(def);
    assert_eq!(world.pawns[0].pos, TileId::new(1, 0));
    assert_eq!(world.fixtures[0].pos, TileId::new(0, 1));
}

#[test]
fn positions_clamp_onto_the_map() {
    let size = MapSize { x: 4, y: 3 };
    assert_eq!(clamp_pos(TileId::new(-2, 7), size), TileId::new(0, 2));
    assert_eq!(clamp_pos(TileId::new(2, 1), size), TileId::new(2, 1));
    assert_eq!(clamp_pos(TileId::new(9, -1), size), TileId::new(3, 0));
    // An empty map leaves nothing to clamp into.
    assert_eq!(clamp_pos(TileId::new(5, 5), MapSize { x: 0, y: 0 }), TileId::new(-1, -1));
    assert_eq!(
        norm_rect(TileId::new(3, -4), TileId::new(-1, 2), size),
        (TileId::new(0, 0), TileId::new(3, 2))
    );
    assert_eq!(
        norm_rect(TileId::new(1, 1), TileId::new(2, 2), size),
        (TileId::new(1, 1), TileId::new(2, 2))
    );
}

#[test]
fn plain_ids_and_known_kinds_load() {
    // Explicit ids below 1000 mixed with generated ones, every kind known and a
    // map to draw tiles from: loading succeeds.
    let def = ScenarioDef {
        sim_seed: Some(9),
        map: MapDef {
            size: MapSize { x: 6, y: 6 },
            tiles: vec![TileDef { pos: TileId::new(5, 5), walkable: true, terrain: Terrain::Grass, item: Some(berry(Some(7))) }],
            schematic: None,
        },
        pawns: vec![
            PawnDef { id: Some(3), inventory: vec![berry(None), berry(Some(1))], ..Default::default() },
            PawnDef { id: None, ..Default::default() },
        ],
        fixtures: vec![stockpile(None, None), FixtureDef { id: Some(2), kind: "BerryBush".into(), ..Default::default() }],
        tasks: vec![],
    };
    let world = load_scenario_from_def(def, 1).unwrap();
    assert_eq!(world.pawns.len(), 2);
    assert_eq!(world.fixtures.len(), 2);
    assert_eq!(world.items.len(), 3);
    assert_eq!(world.pawns[0].pawn.id, PawnId(3));
    assert_eq!(world.pawns[1].pawn.id, PawnId(1000));
    assert_eq!(world.items[0].item.id, ItemId(1001));
    assert_eq!(world.items[1].item.id, ItemId(1));
    assert_eq!(world.items[2].item.id, ItemId(7));
    assert_eq!(world.fixtures[0].fixture.id, FixtureId(1001));
    assert_eq!(world.fixtures[1].fixture.id, FixtureId(2));
    assert!(validate_world(&world).is_empty());
}
