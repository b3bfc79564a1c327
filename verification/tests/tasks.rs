use std::collections::VecDeque;

use stitchlands::components::ItemKind;
use stitchlands::grid::TileId;
use stitchlands::ids::FixtureId;
use stitchlands::loader::load_scenario_from_def;
use stitchlands::reservations::Reservations;
use stitchlands::scenario::{FixtureDef, MapDef, MapSize, PawnDef, ScenarioDef};
use stitchlands::simulation::tick;
use stitchlands::tasks::{Job, JobKind, TaskSpec, TaskSpecKind, ToilKind};
use stitchlands::world::SimWorld;

const SCHEMATIC: &str = "
                    .  P1 .  .
                    .  .  .  .
                    .  .  .  .
                    .  .  F2 .
                ";

fn scenario(priorities: Vec<TaskSpecKind>) -> ScenarioDef {
    ScenarioDef {
        map: MapDef { size: MapSize { x: 4, y: 4 }, tiles: vec![], schematic: Some(SCHEMATIC.to_owned()) },
        sim_seed: Some(1),
        pawns: vec![PawnDef {
            id: Some(1),
            name: Some("Sam".into()),
            priorities,
            sleep: Some(100),
            hunger: Some(100),
            ..Default::default()
        }],
        fixtures: vec![FixtureDef {
            id: Some(2),
            kind: "BerryBush".into(),
            harvest_countdown: Some(0),
            ..Default::default()
        }],
        tasks: vec![],
    }
}

fn step(world: &mut SimWorld, res: &mut Reservations) {
    tick(world, res).unwrap();
}

fn job(world: &SimWorld) -> &Job {
    &world.pawns[0].job
}

fn plan_toils(job: &Job) -> Option<&VecDeque<ToilKind>> {
    job.plan.as_ref().map(|plan| &plan.toils)
}

fn plan_front(job: &Job) -> Option<&ToilKind> {
    plan_toils(job).and_then(|toils| toils.front())
}

fn plan_is_empty(job: &Job) -> bool {
    plan_toils(job).map_or(true, |toils| toils.is_empty())
}

fn fixture_harvest(world: &SimWorld, id: u64) -> Option<(u32, u32)> {
    let f = world.fixtures.iter().find(|f| f.fixture.id == FixtureId(id)).unwrap();
    f.harvestable.map(|h| (h.countdown, h.seq_num))
}

#[test]
fn test_build_plan_for_task() {
    let mut world = load_scenario_from_def(scenario(vec![TaskSpecKind::Harvest, TaskSpecKind::Plant]), 1).unwrap();
    let mut res = Reservations::new();
    let task_id = world.task_board.add_task(TaskSpec::Harvest { to_harvest: FixtureId(2), target_seq_num: 1 });

    assert_eq!(job(&world).kind, JobKind::Idle);
    assert!(job(&world).plan.is_none());
    // Pawn starts at (1, 0) from the schematic
    assert_eq!(world.pawns[0].pos, TileId::new(1, 0));
    assert!(world.pawns[0].pawn.inventory.find(ItemKind::Berry).is_none());

    // First update: the scheduler assigns the Harvest task and starts MoveTo
    step(&mut world, &mut res);
    {
        let j = job(&world);
        assert_eq!(j.kind, JobKind::Task(task_id, TaskSpecKind::Harvest));
        let plan = j.plan.as_ref().unwrap();
        match plan.toils.front() {
            Some(ToilKind::MoveTo { target, path }) => {
                assert_eq!(*target, TileId::new(2, 2));
                assert_eq!(path.len(), 2);
            },
            other => panic!("Expected MoveTo toil, got: {:?}", other),
        }
        assert_eq!(plan.toils.len(), 2);
        match plan.toils.get(1).unwrap() {
            ToilKind::Harvest { fixture_id } => assert_eq!(*fixture_id, FixtureId(2)),
            other => panic!("Expected Harvest in plan, got: {:?}", other),
        }
        assert_eq!(world.pawns[0].pos, TileId::new(2, 0));
    }

    // Second update: one step remains
    step(&mut world, &mut res);
    {
        let plan = job(&world).plan.as_ref().unwrap();
        match plan.toils.front() {
            Some(ToilKind::MoveTo { target, path }) => {
                assert_eq!(*target, TileId::new(2, 2));
                assert_eq!(path.len(), 1);
            },
            other => panic!("Expected MoveTo toil, got: {:?}", other),
        }
        assert_eq!(plan.toils.len(), 2);
        assert_eq!(world.pawns[0].pos, TileId::new(2, 1));
    }

    // Third update: MoveTo finishes, Harvest is next
    step(&mut world, &mut res);
    {
        assert_eq!(world.pawns[0].pos, TileId::new(2, 2));
        let plan = job(&world).plan.as_ref().unwrap();
        assert_eq!(plan.toils.len(), 1);
        assert!(matches!(plan.toils.front().unwrap(), ToilKind::Harvest { .. }));
    }

    // Fourth update: harvest; the pawn holds a berry and the job is cleared
    step(&mut world, &mut res);
    {
        assert!(matches!(job(&world).kind, JobKind::Idle));
        assert!(plan_is_empty(job(&world)));
        assert!(world.pawns[0].pawn.inventory.find(ItemKind::Berry).is_some());
        let (countdown, seq_num) = fixture_harvest(&world, 2).unwrap();
        assert_eq!(seq_num, 1);
        assert!(countdown > 90);
    }
}

#[test]
fn test_harvest_then_plant() {
    let mut world = load_scenario_from_def(scenario(vec![TaskSpecKind::Plant, TaskSpecKind::Harvest]), 1).unwrap();
    let mut res = Reservations::new();
    let harvest_task_id = world.task_board.add_task(TaskSpec::Harvest { to_harvest: FixtureId(2), target_seq_num: 1 });
    let plant_task_id = world.task_board.add_task(TaskSpec::Plant(TileId::new(0, 1), ItemKind::Berry));

    assert!(matches!(job(&world).kind, JobKind::Idle));
    assert!(plan_is_empty(job(&world)));

    step(&mut world, &mut res);
    {
        match job(&world).kind {
            JobKind::Task(id, TaskSpecKind::Harvest) => assert_eq!(id, harvest_task_id),
            other => panic!("expected first task Harvest, got: {:?}", other),
        }
        let plan = plan_toils(job(&world)).unwrap();
        match (plan.front(), plan.get(1)) {
            (Some(ToilKind::MoveTo { .. }), Some(ToilKind::Harvest { .. })) => {},
            other => panic!("expected MoveTo then Harvest plan, got: {:?}", other),
        }
    }

    let mut reached_harvest_target = false;
    for _ in 0..3 {
        step(&mut world, &mut res);
        if matches!(plan_front(job(&world)), Some(ToilKind::Harvest { .. })) {
            reached_harvest_target = true;
            break;
        }
    }
    assert!(reached_harvest_target, "MoveTo for Harvest should finish within 3 updates");

    step(&mut world, &mut res);
    {
        assert!(plan_is_empty(job(&world)));
        assert!(matches!(job(&world).kind, JobKind::Idle));
        assert!(world.pawns[0].pawn.inventory.find(ItemKind::Berry).is_some());
        assert_eq!(fixture_harvest(&world, 2).unwrap().1, 1);
    }

    step(&mut world, &mut res);
    {
        match job(&world).kind {
            JobKind::Task(id, TaskSpecKind::Plant) => assert_eq!(id, plant_task_id),
            other => panic!("expected next task Plant, got: {:?}", other),
        }
        let plan = plan_toils(job(&world)).unwrap();
        match (plan.front(), plan.get(1)) {
            (Some(ToilKind::MoveTo { .. }), Some(ToilKind::Plant { .. })) => {},
            other => panic!("expected MoveTo then Plant plan, got: {:?}", other),
        }
    }

    let mut reached_plant_target = false;
    for _ in 0..3 {
        step(&mut world, &mut res);
        if matches!(plan_front(job(&world)), Some(ToilKind::Plant { .. })) {
            reached_plant_target = true;
            break;
        }
    }
    assert!(reached_plant_target, "MoveTo for Plant should finish within 3 updates");

    step(&mut world, &mut res);
    {
        assert!(plan_is_empty(job(&world)));
        assert!(matches!(job(&world).kind, JobKind::Idle));
        assert!(world.pawns[0].pawn.inventory.find(ItemKind::Berry).is_none());
        assert!(world.fixture_tiles.get(TileId::new(0, 1)).is_some());
    }

    step(&mut world, &mut res);
    step(&mut world, &mut res);
    {
        assert!(matches!(job(&world).kind, JobKind::Idle));
        assert!(plan_is_empty(job(&world)));
    }
}
