//! Choosing jobs for pawns: urgent needs first, then pending tasks by the pawn's
//! work priorities and the tasks' own priority.
use vstd::prelude::*;
use crate::components::Pawn;
use crate::execution::units;
use crate::fixed_point::{Q40p24, div_raw, scale};
use crate::ids::TaskId;
use crate::paths::{manhattan, manhattan_dist};
use crate::planning::{
    PlanState, plan_state_in, board_plannable, job_plan_m, task_plannable, build_plan_for_task, built, eat_m, fresh_state, item_pos_for, neartest_item_pos, plan_state,
    plannable, sleep_m, task_m, build_sleep_plan, build_eat_plan, closer, nearest_ground, nearest_fixture,
};
use crate::reservations::{ReservationKey, Reservations};
use crate::tasks::{Job, JobKind, Plan, Task, TaskBoard, TaskSpec, TaskSpecKind, TaskStatus, has_task, status_set};
use crate::world::{
    PawnEntity, SimWorld, Touch, coords_bounded, fixture_at, frame, has_fixture, has_item, item_at, jobs_known,
    lemma_bounded_fits, lemma_wf_same_ids, tile_bounded, touch_none,
};
use crate::components::ItemRelation;

verus! {

/// The job that should interrupt `current`, if any: while eating, only a sleep
/// meter under 60; otherwise a hunger meter under 80 (eat), then, unless
/// already sleeping, a sleep meter under 80 (sleep).
pub open spec fn preempt_for(pawn: Pawn, current: JobKind) -> Option<JobKind> {
    if current == JobKind::Eat {
        if pawn.sleep.0 < units(60) {
            Some(JobKind::Sleep)
        } else {
            None
        }
    } else if pawn.hunger.0 < units(80) {
        Some(JobKind::Eat)
    } else if current == JobKind::Sleep {
        None
    } else if pawn.sleep.0 < units(80) {
        Some(JobKind::Sleep)
    } else {
        None
    }
}

/// What interrupts a running job (meters in units of 2^24): a pawn below 80
/// hunger is sent to eat from any job but eating, sleeping included; an eating
/// pawn is only ever sent to sleep, exactly when below 60 sleep; a sleeping
/// pawn that is not that hungry sleeps on; any other pawn that is not that
/// hungry is sent to sleep exactly when below 80 sleep. No job is interrupted
/// by itself.
pub proof fn law_preempt_needs(pawn: Pawn, current: JobKind)
    ensures
        current != JobKind::Eat && pawn.hunger.0 < 80 * 16777216 ==> preempt_for(pawn, current) == Some(
            JobKind::Eat,
        ),
        current == JobKind::Eat ==> (preempt_for(pawn, current) == Some(JobKind::Sleep) <==> pawn.sleep.0 < 60
            * 16777216),
        current == JobKind::Eat ==> preempt_for(pawn, current) != Some(JobKind::Eat),
        current == JobKind::Eat && pawn.sleep.0 >= 60 * 16777216 ==> preempt_for(pawn, current) is None,
        current == JobKind::Sleep && pawn.hunger.0 >= 80 * 16777216 ==> preempt_for(pawn, current) is None,
        current != JobKind::Eat && current != JobKind::Sleep && pawn.hunger.0 >= 80 * 16777216 ==> (preempt_for(
            pawn,
            current,
        ) == if pawn.sleep.0 < 80 * 16777216 {
            Some(JobKind::Sleep)
        } else {
            None::<JobKind>
        }),
        preempt_for(pawn, current) != Some(current),
{
}

/// The job that should interrupt `current_job` (`preempt_for`).
pub fn should_preempt(pawn: &Pawn, current_job: JobKind) -> (r: Option<JobKind>)
    ensures
        r == preempt_for(*pawn, current_job),
{
    let sixty = Q40p24::from_int(60);
    let eighty = Q40p24::from_int(80);
    if current_job == JobKind::Eat {
        if pawn.sleep.0 < sixty.0 {
            return Some(JobKind::Sleep);
        }
        return None;
    }
    if pawn.hunger.0 < eighty.0 {
        return Some(JobKind::Eat);
    }
    if current_job == JobKind::Sleep {
        return None;
    }
    if pawn.sleep.0 < eighty.0 {
        return Some(JobKind::Sleep);
    }
    None
}

/// The raw score of a distance `d`: 1 / (1 + d).
pub open spec fn score_raw(d: int) -> i64 {
    div_raw(scale() as i64, (scale() + d * scale()) as i64)
}

/// The score of a distance: 1 / (1 + distance), nearer scoring higher.
pub fn distance_to_score(distance: u32) -> (r: Q40p24)
    ensures
        r.0 == score_raw(distance as int),
{
    let d = Q40p24::from_int(distance as i64);
    let one = Q40p24::one();
    let den = Q40p24((one.0 as i64) + d.0);
    one / den
}


/// The tiles a task names are bounded (`tile_bounded`).
pub open spec fn task_bounded(t: TaskSpec) -> bool {
    match t {
        TaskSpec::Plant(tile, _) => tile_bounded(tile),
        TaskSpec::Build(b) => tile_bounded(b.top_left),
        _ => true,
    }
}

/// Every task on the board names bounded tiles.
pub open spec fn tasks_bounded(board: &crate::tasks::TaskBoard) -> bool {
    forall|i: int| 0 <= i < board.tasks@.len() ==> task_bounded(#[trigger] board.tasks@[i].spec)
}

/// The raw priority of task spec `t` for pawn `pi`, or `None` when the task
/// cannot be worked on now: a harvest needs its bush ready, a plant needs a
/// reachable seed; the score falls with the distance the pawn has to cover.
pub open spec fn priority_m(w: &SimWorld, pi: int, t: TaskSpec, res: Set<ReservationKey>) -> Option<i64> {
    let pos = w.pawns@[pi].pos;
    match t {
        TaskSpec::Harvest { to_harvest, .. } => if !has_fixture(w.fixtures@, to_harvest) {
            None
        } else {
            let f = w.fixtures@[fixture_at(w.fixtures@, to_harvest)];
            match f.harvestable {
                None => None,
                Some(h) => if h.countdown > 0 {
                    None
                } else {
                    Some(score_raw(manhattan_dist(pos, f.pos)))
                },
            }
        },
        TaskSpec::Plant(tile, k) => match item_pos_for(w, pi, k, res) {
            None => None,
            Some(ip) => Some(score_raw(manhattan_dist(tile, ip) + manhattan_dist(pos, ip))),
        },
        TaskSpec::Build(b) => Some(score_raw(manhattan_dist(pos, b.top_left))),
    }
}

/// Where `item_pos_for` sends the pawn is a bounded tile.
proof fn lemma_item_pos_bounded(w: &SimWorld, pi: int, k: crate::components::ItemKind, res: Set<ReservationKey>)
    requires
        plannable(w, pi),
    ensures
        item_pos_for(w, pi, k, res) matches Some(t) ==> tile_bounded(t),
{
    assert(tile_bounded(w.pawns@[pi].pos));
    let p = w.pawns@[pi];
    let found = closer(
        nearest_ground(w.items@, k, p.pos, res, w.items@.len() as int),
        nearest_fixture(w.fixtures@, k, p.pos, res, w.fixtures@.len() as int),
    );
    if let Some(x) = found {
        if has_item(w.items@, x.0) {
            let ii = item_at(w.items@, x.0);
            match w.items@[ii].relation {
                ItemRelation::OnGround(t) => {
                    assert(tile_bounded(t));
                },
                ItemRelation::InFixture(f) => {
                    if has_fixture(w.fixtures@, f) {
                        assert(tile_bounded(w.fixtures@[fixture_at(w.fixtures@, f)].pos));
                    }
                },
                _ => {},
            }
        }
    }
}

impl TaskSpec {
    /// The priority of the task for pawn `pi` (`priority_m`).
    pub fn priority(&self, world: &SimWorld, pi: usize, res: &Reservations) -> (r: Option<Q40p24>)
        requires
            plannable(world, pi as int),
            task_bounded(*self),
        ensures
            match priority_m(world, pi as int, *self, res@) {
                Some(v) => r == Some(Q40p24(v)),
                None => r is None,
            },
    {
        match self {
            TaskSpec::Harvest { .. } => self.harvest_priority(world, pi),
            TaskSpec::Plant(_, _) => self.plant_priority(world, pi, res),
            TaskSpec::Build(_) => self.build_priority(world, pi),
        }
    }

    /// The priority of a harvest task: the bush must exist and be ready.
    fn harvest_priority(&self, world: &SimWorld, pi: usize) -> (r: Option<Q40p24>)
        requires
            plannable(world, pi as int),
            self is Harvest,
        ensures
            match priority_m(world, pi as int, *self, Set::empty()) {
                Some(v) => r == Some(Q40p24(v)),
                None => r is None,
            },
    {
        let f = match self {
            TaskSpec::Harvest { to_harvest, .. } => *to_harvest,
            _ => {
                return None;
            },
        };
        let pos = world.pawns[pi].pos;
        let fi = match world.find_fixture(f) {
            None => {
                return None;
            },
            Some(fi) => fi,
        };
        match world.fixtures[fi].harvestable {
            None => None,
            Some(h) => {
                if h.countdown > 0 {
                    return None;
                }
                proof {
                    assert(tile_bounded(world.pawns@[pi as int].pos));
                    assert(tile_bounded(world.fixtures@[fi as int].pos));
                    lemma_bounded_fits(pos, world.fixtures@[fi as int].pos);
                }
                let d = manhattan(pos, world.fixtures[fi].pos);
                Some(distance_to_score(d))
            },
        }
    }

    /// The priority of a plant task: the distance to a seed and from it to the tile.
    fn plant_priority(&self, world: &SimWorld, pi: usize, res: &Reservations) -> (r: Option<Q40p24>)
        requires
            plannable(world, pi as int),
            task_bounded(*self),
            self is Plant,
        ensures
            match priority_m(world, pi as int, *self, res@) {
                Some(v) => r == Some(Q40p24(v)),
                None => r is None,
            },
    {
        let (tile, k) = match self {
            TaskSpec::Plant(tile, k) => (*tile, *k),
            _ => {
                return None;
            },
        };
        let pos = world.pawns[pi].pos;
        let ip = match neartest_item_pos(world, pi, k, res) {
            None => {
                return None;
            },
            Some(ip) => ip,
        };
        proof {
            lemma_item_pos_bounded(world, pi as int, k, res@);
            assert(tile_bounded(world.pawns@[pi as int].pos));
            lemma_bounded_fits(pos, ip);
            lemma_bounded_fits(tile, ip);
        }
        let to_item = manhattan(pos, ip);
        let to_tile = manhattan(tile, ip);
        Some(distance_to_score(to_tile + to_item))
    }

    /// The priority of a build task: the distance to its top-left tile.
    fn build_priority(&self, world: &SimWorld, pi: usize) -> (r: Option<Q40p24>)
        requires
            plannable(world, pi as int),
            task_bounded(*self),
            self is Build,
        ensures
            match priority_m(world, pi as int, *self, Set::empty()) {
                Some(v) => r == Some(Q40p24(v)),
                None => r is None,
            },
    {
        let top_left = match self {
            TaskSpec::Build(b) => b.top_left,
            _ => {
                return None;
            },
        };
        let pos = world.pawns[pi].pos;
        proof {
            assert(tile_bounded(world.pawns@[pi as int].pos));
            lemma_bounded_fits(pos, top_left);
        }
        let d = manhattan(pos, top_left);
        Some(distance_to_score(d))
    }
}


// ---- urgent needs ----

/// The job urgent needs call for, with its plan: eating when hunger is under 60
/// and an eating plan exists, else sleeping when the sleep meter is under 60 and
/// a sleeping plan exists.
pub open spec fn needs_job_m(w: &SimWorld, pi: int, res0: Set<ReservationKey>) -> Option<(JobKind, PlanState)> {
    let p = w.pawns@[pi];
    let eat = eat_m(w, pi, fresh_state(res0));
    let sleep = sleep_m(w, p.pos, fresh_state(res0));
    if p.pawn.hunger.0 < units(60) && eat is Ok {
        Some((JobKind::Eat, eat->Ok_0))
    } else if p.pawn.sleep.0 < units(60) && sleep is Ok {
        Some((JobKind::Sleep, sleep->Ok_0))
    } else {
        None
    }
}

/// What urgent needs call for (meters in units of 2^24): a pawn below 60 hunger
/// that can plan a meal eats; otherwise a pawn below 60 sleep that can plan a
/// rest sleeps; otherwise needs call for nothing. The plan given is the one
/// that the meal or rest planning makes.
pub proof fn law_urgent_needs(w: SimWorld, pi: int, res0: Set<ReservationKey>)
    ensures
        w.pawns@[pi].pawn.hunger.0 < 60 * 16777216 && eat_m(&w, pi, fresh_state(res0)) is Ok ==> needs_job_m(
            &w,
            pi,
            res0,
        ) == Some((JobKind::Eat, eat_m(&w, pi, fresh_state(res0))->Ok_0)),
        !(w.pawns@[pi].pawn.hunger.0 < 60 * 16777216 && eat_m(&w, pi, fresh_state(res0)) is Ok)
            && w.pawns@[pi].pawn.sleep.0 < 60 * 16777216 && sleep_m(&w, w.pawns@[pi].pos, fresh_state(res0)) is Ok
            ==> needs_job_m(&w, pi, res0) == Some(
            (JobKind::Sleep, sleep_m(&w, w.pawns@[pi].pos, fresh_state(res0))->Ok_0),
        ),
        needs_job_m(&w, pi, res0) is None <==> !(w.pawns@[pi].pawn.hunger.0 < 60 * 16777216 && eat_m(
            &w,
            pi,
            fresh_state(res0),
        ) is Ok) && !(w.pawns@[pi].pawn.sleep.0 < 60 * 16777216 && sleep_m(&w, w.pawns@[pi].pos, fresh_state(res0))
            is Ok),
{
}

/// `j` is a fresh job of kind `k` whose plan is in state `b`.
pub open spec fn job_with(j: Job, k: JobKind, b: PlanState, res: Set<ReservationKey>) -> bool {
    &&& j.kind == k
    &&& j.retries == 0
    &&& j.plan matches Some(p) && plan_state_in(&p, res) == b
}

/// The job urgent needs call for (`needs_job_m`).
pub fn next_job_is_needs(world: &SimWorld, pi: usize, res: &mut Reservations) -> (r: Option<Job>)
    requires
        plannable(world, pi as int),
    ensures
        match needs_job_m(world, pi as int, old(res)@) {
            Some((k, b)) => r matches Some(j) && job_with(j, k, b, final(res)@),
            None => r is None && final(res)@ == old(res)@,
        },
{
    let sixty = Q40p24::from_int(60);
    if world.pawns[pi].pawn.hunger.0 < sixty.0 {
        match build_eat_plan(world, pi, res) {
            Ok(plan) => {
                return Some(Job::new(JobKind::Eat, plan));
            },
            Err(_) => {},
        }
    }
    if world.pawns[pi].pawn.sleep.0 < sixty.0 {
        proof {
            assert(tile_bounded(world.pawns@[pi as int].pos));
        }
        match build_sleep_plan(world, world.pawns[pi].pos, res) {
            Ok(plan) => {
                return Some(Job::new(JobKind::Sleep, plan));
            },
            Err(_) => {},
        }
    }
    None
}

// ---- choosing a task ----

/// Task `i` of the board is pending, of kind `k`, and has a priority for pawn `pi`.
pub open spec fn candidate(w: &SimWorld, pi: int, k: TaskSpecKind, i: int, res0: Set<ReservationKey>) -> bool {
    let ts = w.task_board.tasks@;
    &&& 0 <= i < ts.len()
    &&& ts[i].status == TaskStatus::Pending
    &&& ts[i].spec.kind_of() == k
    &&& priority_m(w, pi, ts[i].spec, res0) is Some
}

/// No plan can be built for task `i` of the board.
pub open spec fn task_fails(w: &SimWorld, pi: int, i: int, res0: Set<ReservationKey>) -> bool {
    task_m(w, pi, w.task_board.tasks@[i].spec, fresh_state(res0)) is Err
}

/// Task `j` is tried before task `i`: a higher priority, or the same one and a
/// smaller id.
pub open spec fn ranks_before(w: &SimWorld, pi: int, res0: Set<ReservationKey>, j: int, i: int) -> bool {
    let ts = w.task_board.tasks@;
    let pj = priority_m(w, pi, ts[j].spec, res0).unwrap();
    let p_i = priority_m(w, pi, ts[i].spec, res0).unwrap();
    pj > p_i || (pj == p_i && ts[j].id.0 < ts[i].id.0)
}

/// Task `i`, of the kind at place `q` of the pawn's work priorities, is the one
/// chosen: it can be planned, and every task tried before it cannot: all
/// candidates of the kinds at earlier places, and the candidates of its own kind
/// that rank before it.
pub open spec fn chosen(w: &SimWorld, pi: int, res0: Set<ReservationKey>, q: int, i: int) -> bool {
    let prios = w.pawns@[pi].priorities.0@;
    &&& 0 <= q < prios.len()
    &&& candidate(w, pi, prios[q], i, res0)
    &&& !task_fails(w, pi, i, res0)
    &&& forall|q2: int, j: int|
        0 <= q2 < q && #[trigger] candidate(w, pi, prios[q2], j, res0) ==> task_fails(w, pi, j, res0)
    &&& forall|j: int|
        #[trigger] candidate(w, pi, prios[q], j, res0) && ranks_before(w, pi, res0, j, i) ==> task_fails(
            w,
            pi,
            j,
            res0,
        )
}

/// No candidate of any kind in the pawn's work priorities can be planned.
pub open spec fn none_chosen(w: &SimWorld, pi: int, res0: Set<ReservationKey>) -> bool {
    let prios = w.pawns@[pi].priorities.0@;
    forall|q: int, j: int| 0 <= q < prios.len() && #[trigger] candidate(w, pi, prios[q], j, res0) ==> task_fails(w, pi, j, res0)
}

/// What choosing a job for pawn `pi` gives: the needs job when there is one;
/// else the chosen task with its plan; else no job (and the reservations as
/// they were).
pub open spec fn choice_ok(w: &SimWorld, pi: int, res0: Set<ReservationKey>, r: Job, res: Set<ReservationKey>) -> bool {
    match needs_job_m(w, pi, res0) {
        Some((k, b)) => job_with(r, k, b, res),
        None => match r.kind {
            JobKind::Task(tid, k) => exists|q: int, i: int|
                #[trigger] chosen(w, pi, res0, q, i) && tid == w.task_board.tasks@[i].id && k
                    == w.task_board.tasks@[i].spec.kind_of() && job_with(
                    r,
                    r.kind,
                    task_m(w, pi, w.task_board.tasks@[i].spec, fresh_state(res0))->Ok_0,
                    res,
                ),
            JobKind::Idle => r.plan is None && r.retries == 0 && res == res0 && none_chosen(w, pi, res0),
            _ => false,
        },
    }
}


/// A collected candidate: its raw priority, its id, its place on the board.
pub open spec fn cand_entry(w: &SimWorld, pi: int, k: TaskSpecKind, res0: Set<ReservationKey>, e: (i64, u64, usize)) -> bool {
    &&& candidate(w, pi, k, e.2 as int, res0)
    &&& e.0 == priority_m(w, pi, w.task_board.tasks@[e.2 as int].spec, res0).unwrap()
    &&& e.1 == w.task_board.tasks@[e.2 as int].id.0
}

/// Candidate `a` is tried before candidate `b`.
pub open spec fn entry_before(a: (i64, u64, usize), b: (i64, u64, usize)) -> bool {
    a.0 > b.0 || (a.0 == b.0 && a.1 < b.1)
}

fn entry_is_before(a: (i64, u64, usize), b: (i64, u64, usize)) -> (r: bool)
    ensures
        r == entry_before(a, b),
{
    a.0 > b.0 || (a.0 == b.0 && a.1 < b.1)
}

/// The candidate of `cands` that is tried first.
fn best_candidate(cands: &Vec<(i64, u64, usize)>) -> (b: usize)
    requires
        cands@.len() > 0,
    ensures
        b < cands@.len(),
        forall|x: int| 0 <= x < cands@.len() ==> !entry_before(#[trigger] cands@[x], cands@[b as int]),
{
    let mut b: usize = 0;
    let mut m: usize = 1;
    while m < cands.len()
        invariant
            b < cands@.len(),
            1 <= m <= cands@.len(),
            forall|x: int| 0 <= x < m ==> !entry_before(#[trigger] cands@[x], cands@[b as int]),
        decreases cands@.len() - m,
    {
        if entry_is_before(cands[m], cands[b]) {
            b = m;
        }
        m = m + 1;
    }
    b
}

/// Task `i` is the first of kind `k` that can be planned: it can, and every
/// candidate of that kind ranking before it cannot.
pub open spec fn best_of_kind(w: &SimWorld, pi: int, res0: Set<ReservationKey>, k: TaskSpecKind, i: int) -> bool {
    &&& candidate(w, pi, k, i, res0)
    &&& !task_fails(w, pi, i, res0)
    &&& forall|j: int|
        #[trigger] candidate(w, pi, k, j, res0) && ranks_before(w, pi, res0, j, i) ==> task_fails(w, pi, j, res0)
}

/// Try the candidates `cands` of kind `k`, best first, until one can be planned.
#[verifier::rlimit(60)]
#[verifier::spinoff_prover]
fn try_kind(world: &SimWorld, pi: usize, k: TaskSpecKind, cands: Vec<(i64, u64, usize)>, res: &mut Reservations) -> (r: Option<Job>)
    requires
        plannable(world, pi as int),
        board_plannable(&world.task_board),
        forall|m: int| 0 <= m < cands@.len() ==> cand_entry(world, pi as int, k, old(res)@, #[trigger] cands@[m]),
        forall|j: int|
            #[trigger] candidate(world, pi as int, k, j, old(res)@) ==> exists|m: int|
                0 <= m < cands@.len() && (#[trigger] cands@[m]).2 == j,
    ensures
        match r {
            Some(job) => exists|i: int|
                #[trigger] best_of_kind(world, pi as int, old(res)@, k, i) && job_with(
                    job,
                    JobKind::Task(world.task_board.tasks@[i].id, k),
                    task_m(world, pi as int, world.task_board.tasks@[i].spec, fresh_state(old(res)@))->Ok_0,
                    final(res)@,
                ),
            None => final(res)@ == old(res)@ && forall|j: int|
                #[trigger] candidate(world, pi as int, k, j, old(res)@) ==> task_fails(world, pi as int, j, old(res)@),
        },
{
    let ghost res0 = res@;
    let mut cands = cands;
    while cands.len() > 0
        invariant
            plannable(world, pi as int),
            board_plannable(&world.task_board),
            res@ == res0,
            res0 == old(res)@,
            forall|m: int| 0 <= m < cands@.len() ==> cand_entry(world, pi as int, k, res0, #[trigger] cands@[m]),
            forall|j: int|
                #[trigger] candidate(world, pi as int, k, j, res0) && !task_fails(world, pi as int, j, res0)
                    ==> exists|m: int| 0 <= m < cands@.len() && (#[trigger] cands@[m]).2 == j,
        decreases cands@.len(),
    {
        let b = best_candidate(&cands);
        let ti = cands[b].2;
        proof {
            assert(cand_entry(world, pi as int, k, res0, cands@[b as int]));
            assert(task_plannable(world.task_board.tasks@[ti as int].spec));
        }
        match build_plan_for_task(world, &world.task_board.tasks[ti], pi, res) {
            Ok(plan) => {
                let t = &world.task_board.tasks[ti];
                let job = Job::new(JobKind::Task(t.id, k), plan);
                proof {
                    assert forall|j: int|
                        #[trigger] candidate(world, pi as int, k, j, res0) && ranks_before(
                            world,
                            pi as int,
                            res0,
                            j,
                            ti as int,
                        ) implies task_fails(world, pi as int, j, res0) by {
                        if !task_fails(world, pi as int, j, res0) {
                            let m0 = choose|m: int| 0 <= m < cands@.len() && (#[trigger] cands@[m]).2 == j;
                            assert(cand_entry(world, pi as int, k, res0, cands@[m0]));
                            assert(!entry_before(cands@[m0], cands@[b as int]));
                        }
                    }
                    assert(best_of_kind(world, pi as int, res0, k, ti as int));
                }
                return Some(job);
            },
            Err(_) => {
                let ghost old_c = cands@;
                cands.remove(b);
                proof {
                    assert forall|j: int|
                        #[trigger] candidate(world, pi as int, k, j, res0) && !task_fails(world, pi as int, j, res0)
                            implies exists|m: int| 0 <= m < cands@.len() && (#[trigger] cands@[m]).2 == j by {
                        let m0 = choose|m: int| 0 <= m < old_c.len() && (#[trigger] old_c[m]).2 == j;
                        if m0 < b {
                            assert(cands@[m0] == old_c[m0]);
                        } else if m0 > b {
                            assert(cands@[m0 - 1] == old_c[m0]);
                        }
                    }
                    assert forall|m: int| 0 <= m < cands@.len() implies cand_entry(
                        world,
                        pi as int,
                        k,
                        res0,
                        #[trigger] cands@[m],
                    ) by {
                        if m < b {
                            assert(cands@[m] == old_c[m]);
                        } else {
                            assert(cands@[m] == old_c[m + 1]);
                        }
                    }
                }
            },
        }
    }
    None
}

/// The pending tasks of kind `k` with a priority for pawn `pi`.
fn collect_candidates(world: &SimWorld, pi: usize, k: TaskSpecKind, res: &Reservations) -> (cands: Vec<(i64, u64, usize)>)
    requires
        plannable(world, pi as int),
        tasks_bounded(&world.task_board),
    ensures
        forall|m: int| 0 <= m < cands@.len() ==> cand_entry(world, pi as int, k, res@, #[trigger] cands@[m]),
        forall|j: int|
            #[trigger] candidate(world, pi as int, k, j, res@) ==> exists|m: int|
                0 <= m < cands@.len() && (#[trigger] cands@[m]).2 == j,
{
    let n_tasks = world.task_board.tasks.len();
    let mut cands: Vec<(i64, u64, usize)> = Vec::new();
    let mut i: usize = 0;
    while i < n_tasks
        invariant
            plannable(world, pi as int),
            tasks_bounded(&world.task_board),
            n_tasks == world.task_board.tasks@.len(),
            i <= n_tasks,
            forall|m: int| 0 <= m < cands@.len() ==> cand_entry(world, pi as int, k, res@, #[trigger] cands@[m]),
            forall|j: int|
                0 <= j < i && #[trigger] candidate(world, pi as int, k, j, res@) ==> exists|m: int|
                    0 <= m < cands@.len() && (#[trigger] cands@[m]).2 == j,
        decreases n_tasks - i,
    {
        let ghost old_c = cands@;
        let t = &world.task_board.tasks[i];
        if t.status == TaskStatus::Pending && t.spec.kind() == k {
            proof {
                assert(task_bounded(world.task_board.tasks@[i as int].spec));
            }
            match t.spec.priority(world, pi, res) {
                Some(p) => {
                    cands.push((p.0, t.id.0, i));
                },
                None => {},
            }
        }
        proof {
            assert forall|j: int|
                0 <= j < i + 1 && #[trigger] candidate(world, pi as int, k, j, res@) implies exists|m: int|
                    0 <= m < cands@.len() && (#[trigger] cands@[m]).2 == j by {
                if j < i {
                    let m0 = choose|m: int| 0 <= m < old_c.len() && (#[trigger] old_c[m]).2 == j;
                    assert(cands@[m0] == old_c[m0]);
                } else {
                    assert(cands@[cands@.len() - 1].2 == i);
                }
            }
            assert forall|m: int| 0 <= m < cands@.len() implies cand_entry(world, pi as int, k, res@, #[trigger] cands@[m]) by {
                if m < old_c.len() {
                    assert(cands@[m] == old_c[m]);
                }
            }
        }
        i = i + 1;
    }
    cands
}

/// Choose a job for pawn `pi` (`choice_ok`): urgent needs first; then, for each
/// kind in the pawn's work priorities in order, the pending tasks of that kind
/// that have a priority, best first, until one can be planned; else no job.
pub fn choose_next_job(world: &SimWorld, pi: usize, res: &mut Reservations) -> (r: Job)
    requires
        plannable(world, pi as int),
        board_plannable(&world.task_board),
        tasks_bounded(&world.task_board),
    ensures
        choice_ok(world, pi as int, old(res)@, r, final(res)@),
{
    let ghost res0 = res@;
    match next_job_is_needs(world, pi, res) {
        Some(job) => {
            return job;
        },
        None => {},
    }
    let prios = &world.pawns[pi].priorities.0;
    let mut q: usize = 0;
    while q < prios.len()
        invariant
            plannable(world, pi as int),
            board_plannable(&world.task_board),
            tasks_bounded(&world.task_board),
            res@ == res0,
            res0 == old(res)@,
            prios@ == world.pawns@[pi as int].priorities.0@,
            q <= prios@.len(),
            needs_job_m(world, pi as int, res0) is None,
            forall|q2: int, j: int|
                0 <= q2 < q && #[trigger] candidate(world, pi as int, prios@[q2], j, res0) ==> task_fails(
                    world,
                    pi as int,
                    j,
                    res0,
                ),
        decreases prios@.len() - q,
    {
        let kind = prios[q];
        let cands = collect_candidates(world, pi, kind, res);
        match try_kind(world, pi, kind, cands, res) {
            Some(job) => {
                proof {
                    let i = choose|i: int| #[trigger] best_of_kind(world, pi as int, res0, kind, i) && job_with(
                        job,
                        JobKind::Task(world.task_board.tasks@[i].id, kind),
                        task_m(world, pi as int, world.task_board.tasks@[i].spec, fresh_state(res0))->Ok_0,
                        res@,
                    );
                    assert(chosen(world, pi as int, res0, q as int, i));
                }
                return job;
            },
            None => {},
        }
        proof {
            assert forall|q2: int, j: int|
                0 <= q2 < q + 1 && #[trigger] candidate(world, pi as int, prios@[q2], j, res0) implies task_fails(
                world,
                pi as int,
                j,
                res0,
            ) by {
                if q2 == q {
                    assert(candidate(world, pi as int, kind, j, res0));
                }
            }
        }
        q = q + 1;
    }
    Job::idle()
}


// ---- scheduling every pawn ----

/// What scheduling needs of the world: well formed, bounded positions and task
/// tiles, plannable build tasks, and task jobs that refer to board tasks.
pub open spec fn sched_ready(w: &SimWorld) -> bool {
    &&& w.wf()
    &&& coords_bounded(w)
    &&& board_plannable(&w.task_board)
    &&& tasks_bounded(&w.task_board)
    &&& jobs_known(w)
}

/// The keys the plan of job `j` holds.
pub open spec fn job_keys(j: Job) -> Set<ReservationKey> {
    match j.plan {
        Some(p) => p.reservations@.to_set(),
        None => Set::empty(),
    }
}

/// `b` equals `a` except for the job of pawn `pi` and the task board.
pub open spec fn eq_but_job_board(a: &SimWorld, b: &SimWorld, pi: int) -> bool {
    &&& b.pawns@.len() == a.pawns@.len()
    &&& forall|j: int| 0 <= j < a.pawns@.len() && j != pi ==> b.pawns@[j] == a.pawns@[j]
    &&& b.pawns@[pi] == (PawnEntity { job: b.pawns@[pi].job, ..a.pawns@[pi] })
    &&& frame(a, b, (Touch { pawns: true, task_board: true, ..touch_none() }))
}

/// Scheduling pawn `pi`: a pawn with a job switches to the job its needs call
/// for (`preempt_for`) when that job can be planned, returning its task to the
/// board; an idle pawn takes the job `choose_next_job` chooses, and the task it
/// names is assigned to it. A replaced plan gives up its reservations.
pub open spec fn sched_post(w: &SimWorld, res: Set<ReservationKey>, pi: int, w2: &SimWorld, res2: Set<ReservationKey>) -> bool {
    let p = w.pawns@[pi];
    if p.job.kind != JobKind::Idle {
        match preempt_for(p.pawn, p.job.kind) {
            None => *w2 == *w && res2 == res,
            Some(pk) => match job_plan_m(w, pi, pk, fresh_state(res)) {
                Err(_) => *w2 == *w && res2 == res,
                Ok(b) => {
                    &&& eq_but_job_board(w, w2, pi)
                    &&& job_with(w2.pawns@[pi].job, pk, b, b.res)
                    &&& res2 == b.res.difference(job_keys(p.job))
                    &&& match p.job.kind {
                        JobKind::Task(tid, _) => status_set(&w.task_board, &w2.task_board, tid, TaskStatus::Pending),
                        _ => w2.task_board == w.task_board,
                    }
                },
            },
        }
    } else {
        exists|rm: Set<ReservationKey>|
            {
                &&& #[trigger] choice_ok(w, pi, res, w2.pawns@[pi].job, rm)
                &&& eq_but_job_board(w, w2, pi)
                &&& res2 == rm.difference(job_keys(p.job))
                &&& match w2.pawns@[pi].job.kind {
                    JobKind::Task(tid, _) => status_set(
                        &w.task_board,
                        &w2.task_board,
                        tid,
                        TaskStatus::Assigned(p.pawn.id),
                    ),
                    _ => w2.task_board == w.task_board,
                }
            }
    }
}

/// Setting a status keeps which tasks are on the board.
proof fn lemma_status_set_keeps(a: &TaskBoard, b: &TaskBoard, id: TaskId, st: TaskStatus)
    requires
        status_set(a, b, id, st),
    ensures
        forall|t: TaskId| has_task(a.tasks@, t) ==> #[trigger] has_task(b.tasks@, t),
        forall|i: int| 0 <= i < a.tasks@.len() ==> #[trigger] b.tasks@[i].spec == a.tasks@[i].spec,
        forall|i: int| 0 <= i < a.tasks@.len() ==> #[trigger] b.tasks@[i].id == a.tasks@[i].id,
{
    assert forall|t: TaskId| has_task(a.tasks@, t) implies #[trigger] has_task(b.tasks@, t) by {
        let i = choose|i: int| 0 <= i < a.tasks@.len() && a.tasks@[i].id == t;
        assert(b.tasks@[i].id == t);
    }
    assert forall|i: int| 0 <= i < a.tasks@.len() implies #[trigger] b.tasks@[i].spec == a.tasks@[i].spec by {
        assert(b.tasks@[i] == if a.tasks@[i].id == id {
            Task { id, spec: a.tasks@[i].spec, status: st }
        } else {
            a.tasks@[i]
        });
    }
    assert forall|i: int| 0 <= i < a.tasks@.len() implies #[trigger] b.tasks@[i].id == a.tasks@[i].id by {
        assert(b.tasks@[i] == if a.tasks@[i].id == id {
            Task { id, spec: a.tasks@[i].spec, status: st }
        } else {
            a.tasks@[i]
        });
    }
}

/// After scheduling one pawn the world is still ready for scheduling.
proof fn lemma_sched_ready_kept(a: &SimWorld, b: &SimWorld, pi: int)
    requires
        sched_ready(a),
        0 <= pi < a.pawns@.len(),
        eq_but_job_board(a, b, pi),
        b.task_board.wf(),
        b.task_board.tasks@.len() == a.task_board.tasks@.len(),
        forall|t: TaskId| has_task(a.task_board.tasks@, t) ==> #[trigger] has_task(b.task_board.tasks@, t),
        forall|i: int|
            0 <= i < a.task_board.tasks@.len() ==> #[trigger] b.task_board.tasks@[i].spec == a.task_board.tasks@[i].spec,
        b.pawns@[pi].job.kind matches JobKind::Task(tid, _) ==> has_task(b.task_board.tasks@, tid),
    ensures
        sched_ready(b),
{
    lemma_wf_same_ids(a, b);
    assert forall|i: int| 0 <= i < b.task_board.tasks@.len() implies task_plannable(#[trigger] b.task_board.tasks@[i].spec) by {
        assert(b.task_board.tasks@[i].spec == a.task_board.tasks@[i].spec);
        assert(task_plannable(a.task_board.tasks@[i].spec));
    }
    assert forall|i: int| 0 <= i < b.task_board.tasks@.len() implies task_bounded(#[trigger] b.task_board.tasks@[i].spec) by {
        assert(b.task_board.tasks@[i].spec == a.task_board.tasks@[i].spec);
        assert(task_bounded(a.task_board.tasks@[i].spec));
    }
    assert forall|i: int| 0 <= i < b.pawns@.len() implies tile_bounded(#[trigger] b.pawns@[i].pos) by {
        assert(tile_bounded(a.pawns@[i].pos));
    }
    assert forall|i: int|
        0 <= i < b.pawns@.len() implies (#[trigger] b.pawns@[i].job.kind matches JobKind::Task(tid, _) ==> has_task(
        b.task_board.tasks@,
        tid,
    )) by {
        if i != pi {
            assert(b.pawns@[i] == a.pawns@[i]);
        }
    }
}

/// Preempt the job of busy pawn `pi` (the first branch of `sched_post`).
fn reschedule_busy(world: &mut SimWorld, pi: usize, res: &mut Reservations)
    requires
        sched_ready(old(world)),
        pi < old(world).pawns@.len(),
        old(world).pawns@[pi as int].job.kind != JobKind::Idle,
    ensures
        sched_ready(final(world)),
        final(world).pawns@.len() == old(world).pawns@.len(),
        forall|j: int| 0 <= j < old(world).pawns@.len() ==> #[trigger] final(world).pawns@[j].pawn == old(world).pawns@[j].pawn,
        sched_post(old(world), old(res)@, pi as int, final(world), final(res)@),
{
    let kind = world.pawns[pi].job.kind;
    let ghost w0 = *world;
    let pk = match should_preempt(&world.pawns[pi].pawn, kind) {
        None => {
            return;
        },
        Some(pk) => pk,
    };
    let plan = match pk.build_plan(world, pi, res) {
        Err(_) => {
            return;
        },
        Ok(plan) => plan,
    };
    let ghost res_mid = res@;
    let ghost b = plan_state(&plan, res);
    match kind {
        JobKind::Task(tid, _) => {
            world.task_board.return_to_pending(tid);
        },
        _ => {},
    }
    let old_plan = world.pawns[pi].job.plan.take();
    let ghost op0 = old_plan;
    world.pawns[pi].job = Job::new(pk, plan);
    match old_plan {
        Some(op) => {
            let mut op = op;
            op.reservations.release_all(res);
        },
        None => {},
    }
    proof {
        assert(op0 == w0.pawns@[pi as int].job.plan);
        assert(res@ == res_mid.difference(job_keys(w0.pawns@[pi as int].job))) by {
            if op0 is None {
                assert(res_mid.difference(Set::<ReservationKey>::empty()) =~= res_mid);
            }
        }
        match kind {
            JobKind::Task(tid, _) => {
                lemma_status_set_keeps(&w0.task_board, &world.task_board, tid, TaskStatus::Pending);
            },
            _ => {},
        }
        assert(world.pawns@[pi as int] == (PawnEntity { job: world.pawns@[pi as int].job, ..w0.pawns@[pi as int] }));
        assert(eq_but_job_board(&w0, world, pi as int));
        lemma_sched_ready_kept(&w0, world, pi as int);
        assert(job_with(world.pawns@[pi as int].job, pk, b, b.res));
    }
}

/// Give idle pawn `pi` a job (the second branch of `sched_post`).
fn schedule_idle(world: &mut SimWorld, pi: usize, res: &mut Reservations)
    requires
        sched_ready(old(world)),
        pi < old(world).pawns@.len(),
        old(world).pawns@[pi as int].job.kind == JobKind::Idle,
    ensures
        sched_ready(final(world)),
        final(world).pawns@.len() == old(world).pawns@.len(),
        forall|j: int| 0 <= j < old(world).pawns@.len() ==> #[trigger] final(world).pawns@[j].pawn == old(world).pawns@[j].pawn,
        sched_post(old(world), old(res)@, pi as int, final(world), final(res)@),
{
    let pid = world.pawns[pi].pawn.id;
    let ghost w0 = *world;
    let next = choose_next_job(world, pi, res);
    let ghost rm = res@;
    let ghost nk = next.kind;
    match next.kind {
        JobKind::Task(tid, _) => {
            proof {
                let (q, i) = choose|q: int, i: int| #[trigger] chosen(&w0, pi as int, old(res)@, q, i)
                    && tid == w0.task_board.tasks@[i].id;
                assert(has_task(world.task_board.tasks@, tid));
            }
            world.task_board.set_assigned(tid, pid);
        },
        _ => {},
    }
    let old_plan = world.pawns[pi].job.plan.take();
    let ghost op0 = old_plan;
    world.pawns[pi].job = next;
    match old_plan {
        Some(op) => {
            let mut op = op;
            op.reservations.release_all(res);
        },
        None => {},
    }
    proof {
        assert(op0 == w0.pawns@[pi as int].job.plan);
        assert(res@ == rm.difference(job_keys(w0.pawns@[pi as int].job))) by {
            if op0 is None {
                assert(rm.difference(Set::<ReservationKey>::empty()) =~= rm);
            }
        }
        match nk {
            JobKind::Task(tid, _) => {
                lemma_status_set_keeps(&w0.task_board, &world.task_board, tid, TaskStatus::Assigned(pid));
            },
            _ => {},
        }
        assert(world.pawns@[pi as int] == (PawnEntity { job: world.pawns@[pi as int].job, ..w0.pawns@[pi as int] }));
        assert(eq_but_job_board(&w0, world, pi as int));
        lemma_sched_ready_kept(&w0, world, pi as int);
        assert(choice_ok(&w0, pi as int, old(res)@, world.pawns@[pi as int].job, rm));
    }
}

/// Schedule pawn `pi` (`sched_post`).
pub fn schedule_one(world: &mut SimWorld, pi: usize, res: &mut Reservations)
    requires
        sched_ready(old(world)),
        pi < old(world).pawns@.len(),
    ensures
        sched_ready(final(world)),
        final(world).pawns@.len() == old(world).pawns@.len(),
        forall|j: int| 0 <= j < old(world).pawns@.len() ==> #[trigger] final(world).pawns@[j].pawn == old(world).pawns@[j].pawn,
        sched_post(old(world), old(res)@, pi as int, final(world), final(res)@),
{
    if world.pawns[pi].job.kind != JobKind::Idle {
        reschedule_busy(world, pi, res);
    } else {
        schedule_idle(world, pi, res);
    }
}


/// Pawn `j` appears in `order`.
pub open spec fn listed(order: Seq<usize>, j: int) -> bool {
    exists|a: int| 0 <= a < order.len() && #[trigger] order[a] == j
}

/// `order` lists every pawn of `w` once, by increasing id.
pub open spec fn by_id(w: &SimWorld, order: Seq<usize>) -> bool {
    &&& forall|a: int| 0 <= a < order.len() ==> (#[trigger] order[a] as int) < w.pawns@.len()
    &&& forall|a: int, b: int|
        0 <= a < b < order.len() ==> w.pawns@[order[a] as int].pawn.id.0 < w.pawns@[order[b] as int].pawn.id.0
    &&& forall|j: int| 0 <= j < w.pawns@.len() ==> #[trigger] listed(order, j)
}

/// The pawn indices of `world` by increasing pawn id.
pub fn pawn_order(world: &SimWorld) -> (order: Vec<usize>)
    requires
        world.wf(),
    ensures
        by_id(world, order@),
{
    let n = world.pawns.len();
    let mut order: Vec<usize> = Vec::new();
    let mut last: Option<u64> = None;
    let mut done = false;
    while !done
        invariant
            world.wf(),
            n == world.pawns@.len(),
            forall|a: int| 0 <= a < order@.len() ==> (#[trigger] order@[a] as int) < n,
            forall|a: int, b: int|
                0 <= a < b < order@.len() ==> world.pawns@[order@[a] as int].pawn.id.0
                    < world.pawns@[order@[b] as int].pawn.id.0,
            last is None <==> order@.len() == 0,
            last matches Some(l) ==> l == world.pawns@[order@.last() as int].pawn.id.0,
            forall|j: int|
                0 <= j < n ==> (#[trigger] listed(order@, j) <==> (last matches Some(l)
                    && world.pawns@[j].pawn.id.0 <= l)),
            done ==> forall|j: int| 0 <= j < n ==> #[trigger] listed(order@, j),
        decreases (if done {
            0
        } else {
            match last {
                None => u64::MAX as int + 2,
                Some(l) => u64::MAX as int + 1 - l,
            }
        }),
    {
        let mut best: Option<usize> = None;
        let mut i: usize = 0;
        while i < n
            invariant
                n == world.pawns@.len(),
                i <= n,
                best matches Some(b) ==> b < i && (last matches Some(l) ==> world.pawns@[b as int].pawn.id.0 > l),
                forall|j: int|
                    0 <= j < i && (last matches Some(l) ==> (#[trigger] world.pawns@[j]).pawn.id.0 > l) ==> (best matches Some(b)
                        && world.pawns@[b as int].pawn.id.0 <= world.pawns@[j].pawn.id.0),
            decreases n - i,
        {
            let id = world.pawns[i].pawn.id.0;
            let above = match last {
                None => true,
                Some(l) => id > l,
            };
            if above {
                let better = match best {
                    None => true,
                    Some(b) => id < world.pawns[b].pawn.id.0,
                };
                if better {
                    best = Some(i);
                }
            }
            i = i + 1;
        }
        match best {
            None => {
                done = true;
                proof {
                    assert forall|j: int| 0 <= j < n implies #[trigger] listed(order@, j) by {
                        assert(world.pawns@[j] == world.pawns@[j]);
                    }
                }
            },
            Some(b) => {
                let ghost old_order = order@;
                let ghost old_last = last;
                order.push(b);
                last = Some(world.pawns[b].pawn.id.0);
                proof {
                    assert forall|j: int|
                        0 <= j < n implies (#[trigger] listed(order@, j) <==> (last matches Some(l)
                        && world.pawns@[j].pawn.id.0 <= l)) by {
                        let idj = world.pawns@[j].pawn.id.0;
                        let idb = world.pawns@[b as int].pawn.id.0;
                        if listed(order@, j) {
                            let a = choose|a: int| 0 <= a < order@.len() && #[trigger] order@[a] == j;
                            if a < old_order.len() {
                                assert(old_order[a] == j);
                                assert(listed(old_order, j));
                            }
                        }
                        if idj <= idb {
                            if old_last matches Some(l) && idj <= l {
                                assert(listed(old_order, j));
                                let a = choose|a: int| 0 <= a < old_order.len() && #[trigger] old_order[a] == j;
                                assert(order@[a] == j);
                            } else {
                                if j != b {
                                    assert(world.pawns@[j].pawn.id != world.pawns@[b as int].pawn.id);
                                }
                                assert(order@[old_order.len() as int] == b);
                            }
                        }
                    }
                }
            },
        }
    }
    order
}

/// Scheduling the pawns `order` one after another, from world `w0` and
/// reservations `r0`, passes through the worlds `ws` and reservations `rs`.
pub open spec fn sched_trace(
    w0: SimWorld,
    r0: Set<ReservationKey>,
    order: Seq<usize>,
    ws: Seq<SimWorld>,
    rs: Seq<Set<ReservationKey>>,
) -> bool {
    &&& ws.len() == order.len() + 1
    &&& rs.len() == order.len() + 1
    &&& ws[0] == w0
    &&& rs[0] == r0
    &&& forall|k: int|
        0 <= k < order.len() ==> #[trigger] sched_post(&ws[k], rs[k], order[k] as int, &ws[k + 1], rs[k + 1])
}

/// Schedule every pawn, by increasing id (`sched_post` for each in turn).
pub fn schedule_pawns(world: &mut SimWorld, res: &mut Reservations)
    requires
        sched_ready(old(world)),
    ensures
        sched_ready(final(world)),
        final(world).pawns@.len() == old(world).pawns@.len(),
        exists|order: Seq<usize>, ws: Seq<SimWorld>, rs: Seq<Set<ReservationKey>>|
            #[trigger] sched_trace(*old(world), old(res)@, order, ws, rs) && by_id(old(world), order) && ws.last()
                == *final(world) && rs.last() == final(res)@,
{
    let order = pawn_order(world);
    let ghost w0 = *world;
    let ghost mut ws: Seq<SimWorld> = seq![*world];
    let ghost mut rs: Seq<Set<ReservationKey>> = seq![res@];
    let mut k: usize = 0;
    while k < order.len()
        invariant
            sched_ready(world),
            world.pawns@.len() == w0.pawns@.len(),
            w0 == *old(world),
            by_id(&w0, order@),
            k <= order@.len(),
            ws.len() == k + 1,
            rs.len() == k + 1,
            ws[0] == w0,
            rs[0] == old(res)@,
            ws.last() == *world,
            rs.last() == res@,
            forall|kk: int| 0 <= kk < k ==> #[trigger] sched_post(&ws[kk], rs[kk], order@[kk] as int, &ws[kk + 1], rs[kk + 1]),
        decreases order@.len() - k,
    {
        let ghost wm = *world;
        let ghost rm = res@;
        let pi = order[k];
        proof {
            assert((order@[k as int] as int) < w0.pawns@.len());
        }
        schedule_one(world, pi, res);
        proof {
            let ws0 = ws;
            let rs0 = rs;
            ws = ws.push(*world);
            rs = rs.push(res@);
            assert forall|kk: int| 0 <= kk < k + 1 implies #[trigger] sched_post(
                &ws[kk],
                rs[kk],
                order@[kk] as int,
                &ws[kk + 1],
                rs[kk + 1],
            ) by {
                if kk < k {
                    assert(ws[kk] == ws0[kk] && ws[kk + 1] == ws0[kk + 1]);
                    assert(rs[kk] == rs0[kk] && rs[kk + 1] == rs0[kk + 1]);
                } else {
                    assert(ws[kk] == wm && rs[kk] == rm);
                }
            }
        }
        k = k + 1;
    }
    proof {
        assert(sched_trace(w0, old(res)@, order@, ws, rs));
    }
}

} // verus!
