use std::collections::VecDeque;

use stitchlands::components::{Harvestable, ItemKind};
use stitchlands::grid::{GridConfig, TileId};
use stitchlands::ids::{FixtureId, PawnId};
use stitchlands::loader::load_scenario_from_def;
use stitchlands::playback::Tick;
use stitchlands::snapshot::{build_world_snapshot, snapshot_parts, WorldSnapshot};
use stitchlands::reservations::Reservations;
use stitchlands::scenario::{FixtureDef, MapDef, MapSize, PawnDef, ScenarioDef};
use stitchlands::simulation::tick;
use stitchlands::tasks::{Job, JobKind, Task, TaskSpec, TaskSpecKind, TaskStatus, ToilKind};
use stitchlands::world::SimWorld;

fn plan_toils(job: &Job) -> Option<&VecDeque<ToilKind>> {
    job.plan.as_ref().map(|plan| &plan.toils)
}

fn plan_front(job: &Job) -> Option<&ToilKind> {
    plan_toils(job).and_then(|toils| toils.front())
}

fn pawn_index(world: &SimWorld, id: u64) -> usize {
    world.pawns.iter().position(|p| p.pawn.id == PawnId(id)).unwrap()
}

fn fixture_cd(world: &SimWorld, id: FixtureId) -> Option<Harvestable> {
    world.fixtures.iter().find(|f| f.fixture.id == id).and_then(|f| f.harvestable)
}

fn has_fixture_at(world: &SimWorld, pos: TileId) -> bool {
    world.fixture_tiles.get(pos).is_some()
}

fn update(world: &mut SimWorld, res: &mut Reservations) {
    tick(world, res).unwrap();
}

fn step_until<F: FnMut(&SimWorld) -> bool>(world: &mut SimWorld, res: &mut Reservations, mut pred: F, max: usize) {
    for _ in 0..max {
        if pred(world) {
            return;
        }
        update(world, res);
    }
    assert!(pred(world), "step_until timed out after {max} ticks");
}

fn finish_moveto(world: &mut SimWorld, res: &mut Reservations, pawn: usize, max: usize) {
    step_until(
        world,
        res,
        |w| plan_front(&w.pawns[pawn].job).map(|t| !matches!(t, ToilKind::MoveTo { .. })).unwrap_or(false),
        max,
    );
}

fn bush(id: u64, countdown: u32) -> FixtureDef {
    FixtureDef { id: Some(id), kind: "BerryBush".into(), harvest_countdown: Some(countdown), ..Default::default() }
}

fn harvest(id: u64) -> TaskSpec {
    TaskSpec::Harvest { to_harvest: FixtureId(id), target_seq_num: 1 }
}

fn count_status(world: &SimWorld, status: TaskStatus) -> usize {
    world.task_board.tasks_by_status(status).len()
}

#[test]
fn nearest_ready_harvests_and_plants_alternate() {
    let def = ScenarioDef {
        map: MapDef {
            size: MapSize { x: 8, y: 8 },
            tiles: vec![],
            schematic: Some(
                "
                    .  P1 .  .  .  .  .  .
                    .  .  .  .  .  .  . .
                    .  .  .  .  .  .  .  .
                    .  .  .  .  .  F3 .  .
                    .  .  .  .  .  .  .  .
                    .  .  F2 .  .  .  F1 .
                    .  .  .  .  F4 .  .  .
                    .  .  .  .  .  .  .  .
                "
                .to_owned(),
            ),
        },
        sim_seed: Some(1),
        pawns: vec![PawnDef {
            id: Some(1),
            name: Some("Veronica".into()),
            priorities: vec![TaskSpecKind::Plant, TaskSpecKind::Harvest],
            ..Default::default()
        }],
        fixtures: vec![bush(1, 0), bush(2, 0), bush(3, 2), bush(4, 0)],
        tasks: vec![],
    };

    let mut world = load_scenario_from_def(def, 1).unwrap();
    let mut res = Reservations::new();
    let task_ids = [
        world.task_board.add_task(harvest(1)),
        world.task_board.add_task(harvest(2)),
        world.task_board.add_task(harvest(3)),
        world.task_board.add_task(harvest(4)),
        world.task_board.add_task(TaskSpec::Plant(TileId::new(0, 1), ItemKind::Berry)),
        world.task_board.add_task(TaskSpec::Plant(TileId::new(3, 1), ItemKind::Berry)),
    ];
    let e = pawn_index(&world, 1);

    // 1) First assignment must be Harvest (Plant infeasible initially)
    update(&mut world, &mut res);
    {
        let job = &world.pawns[e].job;
        match &job.kind {
            JobKind::Task(_, TaskSpecKind::Harvest) => {},
            other => panic!("expected first job Harvest, got {other:?}"),
        }
        let plan = plan_toils(job).unwrap();
        match (plan.front(), plan.get(1)) {
            (Some(ToilKind::MoveTo { .. }), Some(ToilKind::Harvest { fixture_id })) => {
                assert!(FixtureId(2) == *fixture_id, "first Harvest should be one of F2, got {:?}", fixture_id);
                assert_eq!(*fixture_id, FixtureId(2));
            },
            other => panic!("expected MoveTo then Harvest plan, got {other:?}"),
        }
    }

    finish_moveto(&mut world, &mut res, e, 16);
    let last_harvest = match plan_front(&world.pawns[e].job) {
        Some(ToilKind::Harvest { fixture_id }) => *fixture_id,
        x => panic!("expected Harvest next, got {x:?}"),
    };
    update(&mut world, &mut res);
    {
        assert!(matches!(world.pawns[e].job.kind, JobKind::Idle));
        assert!(!world.pawns[e].pawn.inventory.of_kind(ItemKind::Berry).is_empty());
        let h = fixture_cd(&world, last_harvest).unwrap();
        assert_eq!(h.seq_num, 1);
        assert!(h.countdown > 90);
    }

    // 2) Next assignment becomes Plant (now feasible); (3,1) first
    update(&mut world, &mut res);
    let first_plant_target = {
        let job = &world.pawns[e].job;
        match &job.kind {
            JobKind::Task(_, TaskSpecKind::Plant) => {},
            _ => panic!("expected Plant job"),
        };
        let plan = plan_toils(job).unwrap();
        match (plan.front(), plan.get(1)) {
            (Some(ToilKind::MoveTo { .. }), Some(ToilKind::Plant { seed_id: _, tile_id })) => {
                assert_eq!(*tile_id, TileId::new(3, 1), "expected nearer Plant at (3,1)");
                *tile_id
            },
            other => panic!("expected MoveTo then Plant, got {other:?}"),
        }
    };
    finish_moveto(&mut world, &mut res, e, 16);
    update(&mut world, &mut res);
    {
        assert!(matches!(world.pawns[e].job.kind, JobKind::Idle));
        assert!(world.pawns[e].pawn.inventory.of_kind(ItemKind::Berry).is_empty());
        assert!(has_fixture_at(&world, first_plant_target));
    }

    // 3) Harvest again (Plant infeasible); F3 next
    update(&mut world, &mut res);
    {
        let job = &world.pawns[e].job;
        match &job.kind {
            JobKind::Task(_, TaskSpecKind::Harvest) => {},
            _ => panic!("expected Harvest after Plant"),
        };
        let plan = plan_toils(job).unwrap();
        match (plan.front(), plan.get(1)) {
            (Some(ToilKind::MoveTo { .. }), Some(ToilKind::Harvest { fixture_id })) => {
                assert_eq!(*fixture_id, FixtureId(3), "expected F3 as next nearest Harvest");
            },
            other => panic!("expected MoveTo then Harvest, got {other:?}"),
        }
    }
    finish_moveto(&mut world, &mut res, e, 16);
    let last_harvest = match plan_front(&world.pawns[e].job) {
        Some(ToilKind::Harvest { fixture_id }) => *fixture_id,
        _ => panic!("expected Harvest next"),
    };
    update(&mut world, &mut res);
    let h = fixture_cd(&world, last_harvest).unwrap();
    assert_eq!(h.seq_num, 1);
    assert!(h.countdown > 90);

    // 4) Plant the second target at (0,1)
    update(&mut world, &mut res);
    let second_plant_target = {
        let job = &world.pawns[e].job;
        match &job.kind {
            JobKind::Task(_, TaskSpecKind::Plant) => {},
            _ => panic!("expected Plant job"),
        };
        let plan = plan_toils(job).unwrap();
        match (plan.front(), plan.get(1)) {
            (Some(ToilKind::MoveTo { .. }), Some(ToilKind::Plant { tile_id, .. })) => {
                assert_eq!(*tile_id, TileId::new(0, 1));
                *tile_id
            },
            other => panic!("expected MoveTo then Plant, got {other:?}"),
        }
    };
    finish_moveto(&mut world, &mut res, e, 32);
    update(&mut world, &mut res);
    assert!(has_fixture_at(&world, second_plant_target));

    // 5) The remaining ready Harvest
    update(&mut world, &mut res);
    {
        let job = &world.pawns[e].job;
        match &job.kind {
            JobKind::Task(_, TaskSpecKind::Harvest) => {},
            _ => panic!("expected Harvest job"),
        };
        let plan = plan_toils(job).unwrap();
        match (plan.front(), plan.get(1)) {
            (Some(ToilKind::MoveTo { .. }), Some(ToilKind::Harvest { fixture_id })) => {
                assert_eq!(*fixture_id, FixtureId(4), "expected F4 as remaining ready Harvest");
            },
            other => panic!("expected MoveTo then Harvest, got {other:?}"),
        }
    }
    finish_moveto(&mut world, &mut res, e, 32);
    let last_harvest = match plan_front(&world.pawns[e].job) {
        Some(ToilKind::Harvest { fixture_id }) => *fixture_id,
        _ => panic!("expected Harvest next"),
    };
    update(&mut world, &mut res);
    assert_eq!(fixture_cd(&world, last_harvest).map(|h| h.seq_num), Some(1));

    let board = &world.task_board;
    assert_eq!(board.tasks.len(), 6);
    assert_eq!(board.get(task_ids[0]).unwrap().status, TaskStatus::Pending);
    for id in &task_ids[1..] {
        assert_eq!(board.get(*id).unwrap().status, TaskStatus::Done);
    }
    assert_eq!(
        *board.get(task_ids[3]).unwrap(),
        Task { id: task_ids[3], spec: harvest(4), status: TaskStatus::Done }
    );
}

#[test]
fn test_two_pawns() {
    let def = ScenarioDef {
        map: MapDef {
            size: MapSize { x: 8, y: 8 },
            tiles: vec![],
            schematic: Some(
                "
                    .  P1 .  .  .  .  .  .
                    .  .  .  .  .  .  . .
                    .  .  .  .  .  .  .  .
                    .  .  .  .  F3  .  .  .
                    .  .  .  .  .  .  .  .
                    .  .  F2 .  .  .  F1  .
                    .  .  .  .  F4  .  .  .
                    .  .  .  .  .  .  P2 .
                "
                .to_owned(),
            ),
        },
        sim_seed: Some(1),
        pawns: vec![
            PawnDef {
                id: Some(1),
                name: Some("Veronica".into()),
                priorities: vec![TaskSpecKind::Plant, TaskSpecKind::Harvest],
                ..Default::default()
            },
            PawnDef {
                id: Some(2),
                name: Some("Sam".into()),
                priorities: vec![TaskSpecKind::Plant, TaskSpecKind::Harvest],
                ..Default::default()
            },
        ],
        fixtures: vec![bush(1, 0), bush(2, 0), bush(3, 2), bush(4, 0)],
        tasks: vec![],
    };

    let mut world = load_scenario_from_def(def, 1).unwrap();
    let mut res = Reservations::new();
    let task_ids = [
        world.task_board.add_task(harvest(1)),
        world.task_board.add_task(harvest(2)),
        world.task_board.add_task(harvest(3)),
        world.task_board.add_task(harvest(4)),
        world.task_board.add_task(TaskSpec::Plant(TileId::new(0, 1), ItemKind::Berry)),
        world.task_board.add_task(TaskSpec::Plant(TileId::new(3, 3), ItemKind::Berry)),
    ];
    for _ in 0..20 {
        update(&mut world, &mut res);
    }

    assert_eq!(world.task_board.tasks.len(), 6);
    assert_eq!(count_status(&world, TaskStatus::Pending), 0);
    assert_eq!(count_status(&world, TaskStatus::Done), 6);
    assert_eq!(count_status(&world, TaskStatus::Assigned(PawnId(2))), 0);
    assert_eq!(count_status(&world, TaskStatus::Assigned(PawnId(1))), 0);
    assert_eq!(world.task_board.get(task_ids[2]).unwrap().status, TaskStatus::Done);

    let p1 = pawn_index(&world, 1);
    assert_eq!(world.pawns[p1].pawn.inventory.of_kind(ItemKind::Berry).len(), 0);
    let p2 = pawn_index(&world, 2);
    assert_eq!(world.pawns[p2].pawn.inventory.of_kind(ItemKind::Berry).len(), 2);
}

fn run(mut world: SimWorld, ticks: i32) -> WorldSnapshot {
    let mut res = Reservations::new();
    for _ in 0..ticks {
        update(&mut world, &mut res);
    }
    let (pawns, items, fixtures, tasks) = snapshot_parts(&world);
    build_world_snapshot(Tick(ticks), world.scenario_seed, pawns, items, fixtures, &tasks)
}

fn wandering_scenario() -> ScenarioDef {
    ScenarioDef {
        map: MapDef { size: MapSize { x: 8, y: 8 }, tiles: vec![], schematic: None },
        sim_seed: None,
        pawns: vec![PawnDef { name: Some("Ada".into()), ..Default::default() }, PawnDef::default()],
        fixtures: vec![bush(1, 3), bush(2, 0)],
        tasks: vec![],
    }
}

#[test]
fn same_scenario_and_seed_give_the_same_run() {
    let a = run(load_scenario_from_def(wandering_scenario(), 42).unwrap(), 25);
    let b = run(load_scenario_from_def(wandering_scenario(), 42).unwrap(), 25);
    assert_eq!(a, b);
    assert_eq!(a.scenario_seed, Some(42));
    assert_eq!(a.pawns.len(), 2);
}

#[test]
fn empty_world_runs_agree() {
    let a = run(SimWorld::new(GridConfig { width: 64, height: 64 }), 10);
    let b = run(SimWorld::new(GridConfig { width: 64, height: 64 }), 10);
    assert_eq!(a, b);
    assert!(a.pawns.is_empty() && a.items.is_empty() && a.fixtures.is_empty());
}

struct Counter {
    steps: u32,
}

impl stitchlands::sim_kit::Simulation for Counter {
    type State = u64;
    type Actions = u64;
    type Event = String;

    fn step(&mut self, tick: Tick, state: u64, actions: &Vec<u64>) -> (u64, VecDeque<String>) {
        self.steps += 1;
        let next = state + actions.iter().sum::<u64>();
        (next, VecDeque::from(vec![format!("tick {} -> {}", tick.0, next)]))
    }
}

#[test]
fn a_kit_step_replaces_the_state_and_passes_events_on() {
    let mut sim = Counter { steps: 0 };
    let mut state = 5u64;
    let events = stitchlands::sim_kit::run_sim_step(&mut sim, Tick(3), &mut state, &vec![1, 2]);
    assert_eq!(state, 8);
    assert_eq!(events, VecDeque::from(vec!["tick 3 -> 8".to_string()]));
    assert_eq!(sim.steps, 1);
}
