//! Judging finished toils, completing tasks, and the passage of time.
use vstd::prelude::*;
use crate::components::FixtureKind;
use crate::fixed_point::Q40p24;
use crate::ids::{PawnId, TaskId};
use crate::planning::{board_plannable, job_plan_m, fresh_state, plan_state_in, plannable};
use crate::reservations::{ReservationKey, Reservations};
use crate::scheduling::{by_id, job_keys, sched_ready, sched_trace, schedule_pawns};
use crate::execution::{StepFault, events_of, pawn_step, step_jobs, steps_trace};
use crate::tasks::{Job, JobKind, TaskSpec, TaskStatus, ToilEvent, has_task, status_set, task_pos};
use crate::world::{
    PawnEntity, SimWorld, Touch, coords_bounded, fixture_at, frame, has_fixture, has_pawn, lemma_wf_same_ids,
    pawn_at, touch_none,
};

verus! {

/// Whether task spec `t` has been carried out in `w`: the bush has been
/// harvested up to the target count, a berry bush stands on the planting tile,
/// or a fixture of the planned kind stands on the building's tile. A fixture
/// that cannot be found counts as not done.
pub open spec fn completed_m(w: &SimWorld, t: TaskSpec) -> bool {
    match t {
        TaskSpec::Harvest { to_harvest, target_seq_num } => has_fixture(w.fixtures@, to_harvest)
            && (w.fixtures@[fixture_at(w.fixtures@, to_harvest)].harvestable matches Some(h) && h.seq_num
            == target_seq_num),
        TaskSpec::Plant(tile, _) => w.fixture_tiles.at(tile) matches Some(fid) && has_fixture(w.fixtures@, fid)
            && w.fixtures@[fixture_at(w.fixtures@, fid)].fixture.kind == FixtureKind::BerryBush,
        TaskSpec::Build(b) => w.fixture_tiles.at(b.top_left) matches Some(fid) && has_fixture(w.fixtures@, fid)
            && w.fixtures@[fixture_at(w.fixtures@, fid)].fixture.kind == b.fixture_kind,
    }
}

impl TaskSpec {
    /// Whether the task has been carried out (`completed_m`).
    pub fn completed(&self, world: &SimWorld) -> (r: bool)
        requires
            world.wf(),
        ensures
            r == completed_m(world, *self),
    {
        match self {
            TaskSpec::Harvest { to_harvest, target_seq_num } => match world.find_fixture(*to_harvest) {
                None => false,
                Some(fi) => match world.fixtures[fi].harvestable {
                    Some(h) => h.seq_num == *target_seq_num,
                    None => false,
                },
            },
            TaskSpec::Plant(tile, _) => match world.fixture_tiles.get(*tile) {
                None => false,
                Some(fid) => match world.find_fixture(fid) {
                    None => false,
                    Some(fi) => world.fixtures[fi].fixture.kind == FixtureKind::BerryBush,
                },
            },
            TaskSpec::Build(b) => match world.fixture_tiles.get(b.top_left) {
                None => false,
                Some(fid) => match world.find_fixture(fid) {
                    None => false,
                    Some(fi) => world.fixtures[fi].fixture.kind == b.fixture_kind,
                },
            },
        }
    }
}


/// No job (`Job::default()`).
pub open spec fn idle_job() -> Job {
    Job { kind: JobKind::Idle, plan: None, retries: 0 }
}

/// Whether pawn `pi`'s job is a task that `w` does not show as carried out.
pub open spec fn task_unfinished(w: &SimWorld, kind: JobKind) -> bool {
    kind matches JobKind::Task(tid, _) && !completed_m(
        w,
        w.task_board.tasks@[task_pos(w.task_board.tasks@, tid)].spec,
    )
}

/// Whether judging event `ev` replans: the plan ran out on an unfinished task,
/// or the toil failed with fewer than two retries so far.
pub open spec fn wants_replan(w: &SimWorld, ev: ToilEvent) -> bool {
    let job = w.pawns@[pawn_at(w.pawns@, ev.pawn_id)].job;
    match ev.failure_reason {
        None => job.plan.unwrap().toils@.len() == 0 && task_unfinished(w, job.kind),
        Some(_) => job.retries < 2,
    }
}

/// What judging event `ev` needs, so that nothing panics: its pawn exists; when
/// the toil succeeded the pawn has a plan, and a task job whose plan ran out
/// names a task on the board; a replan can count one more retry.
pub open spec fn event_ok(w: &SimWorld, ev: ToilEvent) -> bool {
    let job = w.pawns@[pawn_at(w.pawns@, ev.pawn_id)].job;
    &&& has_pawn(w.pawns@, ev.pawn_id)
    &&& ev.failure_reason is None ==> job.plan is Some
    &&& ev.failure_reason is None && job.plan.unwrap().toils@.len() == 0 ==> (job.kind matches JobKind::Task(
        tid,
        _,
    ) ==> has_task(w.task_board.tasks@, tid))
    &&& wants_replan(w, ev) ==> job.retries < 255
}

/// Every event can be judged, and no two are for the same pawn.
pub open spec fn events_ok(w: &SimWorld, evs: Seq<ToilEvent>) -> bool {
    &&& forall|k: int| 0 <= k < evs.len() ==> event_ok(w, #[trigger] evs[k])
    &&& forall|a: int, b: int| 0 <= a < b < evs.len() ==> evs[a].pawn_id != evs[b].pawn_id
}

/// What judging events needs of the world: well formed, bounded positions,
/// plannable build tasks.
pub open spec fn eval_ready(w: &SimWorld) -> bool {
    &&& w.wf()
    &&& coords_bounded(w)
    &&& board_plannable(&w.task_board)
}

/// Judging event `ev` against `w`, with the reservations going from `res` to
/// `res2`: `out` is the new job for the event's pawn, or `None` to keep the job.
/// A toil that succeeded with more toils to go keeps the job; one that ended the
/// plan of an unfinished task, or one that failed with fewer than two retries,
/// replans the same job kind with one more retry (no job when no plan can be
/// made); otherwise the job ends.
pub open spec fn event_outcome(
    w: &SimWorld,
    ev: ToilEvent,
    res: Set<ReservationKey>,
    out: Option<(usize, Job)>,
    res2: Set<ReservationKey>,
) -> bool {
    let pi = pawn_at(w.pawns@, ev.pawn_id);
    let job = w.pawns@[pi].job;
    let clear = out == Some((pi as usize, idle_job())) && res2 == res;
    let replan = match job_plan_m(w, pi, job.kind, fresh_state(res)) {
        Ok(b) => out matches Some(m) && m.0 == pi && m.1.kind == job.kind && m.1.retries == job.retries + 1
            && (m.1.plan matches Some(p) && plan_state_in(&p, res2) == b) && res2 == b.res,
        Err(_) => clear,
    };
    if ev.failure_reason is None && job.plan.unwrap().toils@.len() > 0 {
        out is None && res2 == res
    } else if wants_replan(w, ev) {
        replan
    } else {
        clear
    }
}

/// Judging a toil event (`job` is the job of the event's pawn `pi`): a toil that
/// failed while the job has had fewer than two retries, when the job's kind can
/// be planned again, gives the pawn a job of the same kind with one more retry
/// and a new plan; a failed toil whose job has had two retries or more, or whose
/// job cannot be planned again, sends the pawn idle and takes no reservation; a
/// toil that succeeded with toils still to go leaves the job as it is.
pub proof fn law_judged_failures(
    w: SimWorld,
    ev: ToilEvent,
    res: Set<ReservationKey>,
    out: Option<(usize, Job)>,
    res2: Set<ReservationKey>,
)
    requires
        event_outcome(&w, ev, res, out, res2),
    ensures
        ev.failure_reason is Some && w.pawns@[pawn_at(w.pawns@, ev.pawn_id)].job.retries < 2 && job_plan_m(
            &w,
            pawn_at(w.pawns@, ev.pawn_id),
            w.pawns@[pawn_at(w.pawns@, ev.pawn_id)].job.kind,
            fresh_state(res),
        ) is Ok ==> (out matches Some(m) && m.0 as int == pawn_at(w.pawns@, ev.pawn_id) && m.1.kind == w.pawns@[pawn_at(
            w.pawns@,
            ev.pawn_id,
        )].job.kind && m.1.retries == w.pawns@[pawn_at(w.pawns@, ev.pawn_id)].job.retries + 1 && m.1.plan is Some),
        ev.failure_reason is Some && (w.pawns@[pawn_at(w.pawns@, ev.pawn_id)].job.retries >= 2 || job_plan_m(
            &w,
            pawn_at(w.pawns@, ev.pawn_id),
            w.pawns@[pawn_at(w.pawns@, ev.pawn_id)].job.kind,
            fresh_state(res),
        ) is Err) ==> (out == Some((pawn_at(w.pawns@, ev.pawn_id) as usize, (Job { kind: JobKind::Idle, plan: None, retries: 0 })))
            && res2 == res),
        ev.failure_reason is None && w.pawns@[pawn_at(w.pawns@, ev.pawn_id)].job.plan.unwrap().toils@.len() > 0 ==> (
        out is None && res2 == res),
        ev.failure_reason is None && w.pawns@[pawn_at(w.pawns@, ev.pawn_id)].job.plan.unwrap().toils@.len() == 0
            && task_unfinished(&w, w.pawns@[pawn_at(w.pawns@, ev.pawn_id)].job.kind) && job_plan_m(
            &w,
            pawn_at(w.pawns@, ev.pawn_id),
            w.pawns@[pawn_at(w.pawns@, ev.pawn_id)].job.kind,
            fresh_state(res),
        ) is Ok ==> (out matches Some(m) && m.0 as int == pawn_at(w.pawns@, ev.pawn_id) && m.1.kind == w.pawns@[pawn_at(
            w.pawns@,
            ev.pawn_id,
        )].job.kind && m.1.retries == w.pawns@[pawn_at(w.pawns@, ev.pawn_id)].job.retries + 1 && m.1.plan is Some),
        ev.failure_reason is None && w.pawns@[pawn_at(w.pawns@, ev.pawn_id)].job.plan.unwrap().toils@.len() == 0
            && !task_unfinished(&w, w.pawns@[pawn_at(w.pawns@, ev.pawn_id)].job.kind) ==> (out == Some(
            (pawn_at(w.pawns@, ev.pawn_id) as usize, (Job { kind: JobKind::Idle, plan: None, retries: 0 })),
        ) && res2 == res),
{
}

/// The values of the `Some` entries of `s`, in order.
pub open spec fn somes<A>(s: Seq<Option<A>>) -> Seq<A>
    decreases s.len(),
{
    if s.len() == 0 {
        Seq::empty()
    } else {
        match s.last() {
            Some(x) => somes(s.drop_last()).push(x),
            None => somes(s.drop_last()),
        }
    }
}

/// Judging the events `evs` in turn against `w` takes the reservations through
/// `rs` and gives the outcomes `outs`.
pub open spec fn judge_trace(
    w: &SimWorld,
    evs: Seq<ToilEvent>,
    rs: Seq<Set<ReservationKey>>,
    outs: Seq<Option<(usize, Job)>>,
) -> bool {
    &&& rs.len() == evs.len() + 1
    &&& outs.len() == evs.len()
    &&& forall|k: int| 0 <= k < evs.len() ==> #[trigger] event_outcome(w, evs[k], rs[k], outs[k], rs[k + 1])
}

/// Giving pawn `m.0` the job `m.1`: its old plan's reservations are released, and
/// when a task job gives way to no job, that task is reported done.
pub open spec fn apply_post(
    w: &SimWorld,
    res: Set<ReservationKey>,
    m: (usize, Job),
    w2: &SimWorld,
    res2: Set<ReservationKey>,
    done: Option<TaskId>,
) -> bool {
    let pi = m.0 as int;
    let old_job = w.pawns@[pi].job;
    &&& crate::execution::eq_but_job(w, w2, pi)
    &&& w2.pawns@[pi].job == m.1
    &&& res2 == res.difference(job_keys(old_job))
    &&& done == match old_job.kind {
        JobKind::Task(tid, _) => if m.1.kind == JobKind::Idle {
            Some(tid)
        } else {
            None
        },
        _ => None,
    }
}

/// Applying the new jobs `ms` in turn passes through worlds `ws` and reservations
/// `rs`, reporting `dones`.
pub open spec fn apply_trace(
    ms: Seq<(usize, Job)>,
    ws: Seq<SimWorld>,
    rs: Seq<Set<ReservationKey>>,
    dones: Seq<Option<TaskId>>,
) -> bool {
    &&& ws.len() == ms.len() + 1
    &&& rs.len() == ms.len() + 1
    &&& dones.len() == ms.len()
    &&& forall|k: int| 0 <= k < ms.len() ==> #[trigger] apply_post(&ws[k], rs[k], ms[k], &ws[k + 1], rs[k + 1], dones[k])
}

/// The new job for the pawn of event `ev` (`event_outcome`).
fn judge_event(world: &SimWorld, ev: &ToilEvent, res: &mut Reservations) -> (out: Option<(usize, Job)>)
    requires
        eval_ready(world),
        event_ok(world, *ev),
    ensures
        event_outcome(world, *ev, old(res)@, out, final(res)@),
        out matches Some(m) ==> (m.0 as int) == pawn_at(world.pawns@, ev.pawn_id),
{
    let pi = world.find_pawn(ev.pawn_id).unwrap();
    let kind = world.pawns[pi].job.kind;
    let retries = world.pawns[pi].job.retries;
    let replan = match &ev.failure_reason {
        None => {
            let toils_left = match &world.pawns[pi].job.plan {
                Some(p) => p.toils.len(),
                None => 0,
            };
            if toils_left > 0 {
                return None;
            }
            match kind {
                JobKind::Task(tid, _) => {
                    let ti = world.task_board.find(tid).unwrap();
                    !world.task_board.tasks[ti].spec.completed(world)
                },
                _ => false,
            }
        },
        Some(_) => retries < 2,
    };
    if !replan {
        return Some((pi, Job::idle()));
    }
    match kind.build_plan(world, pi, res) {
        Ok(plan) => Some((pi, Job { kind, plan: Some(plan), retries: retries + 1 })),
        Err(_) => Some((pi, Job::idle())),
    }
}

/// Give pawn `pi` the job `job`, releasing the reservations of its old plan;
/// returns the task a task job leaves done when it gives way to no job.
fn apply_job(world: &mut SimWorld, pi: usize, job: Job, res: &mut Reservations) -> (done: Option<TaskId>)
    requires
        old(world).wf(),
        pi < old(world).pawns@.len(),
    ensures
        final(world).wf(),
        apply_post(old(world), old(res)@, (pi, job), final(world), final(res)@, done),
{
    let ghost w0 = *world;
    let old_kind = world.pawns[pi].job.kind;
    let done = if job.kind == JobKind::Idle {
        match old_kind {
            JobKind::Task(tid, _) => Some(tid),
            _ => None,
        }
    } else {
        None
    };
    let old_plan = world.pawns[pi].job.plan.take();
    let ghost op0 = old_plan;
    world.pawns[pi].job = job;
    match old_plan {
        Some(op) => {
            let mut op = op;
            op.reservations.release_all(res);
        },
        None => {},
    }
    proof {
        assert(op0 == w0.pawns@[pi as int].job.plan);
        if op0 is None {
            assert(old(res)@.difference(Set::<ReservationKey>::empty()) =~= old(res)@);
        }
        assert(crate::execution::eq_but_job(&w0, world, pi as int));
        lemma_wf_same_ids(&w0, world);
    }
    done
}

/// The task ids of `dones`, in order.
pub open spec fn done_ids(dones: Seq<Option<TaskId>>) -> Seq<TaskId> {
    somes(dones)
}

/// Judge the events of the toils that ended (`event_outcome`), all against the
/// world as it stands, then give the pawns their new jobs in turn (`apply_post`);
/// returns the tasks left done.
pub fn evaluate_job(world: &mut SimWorld, res: &mut Reservations, events: &Vec<ToilEvent>) -> (done: Vec<TaskId>)
    requires
        eval_ready(old(world)),
        events_ok(old(world), events@),
    ensures
        final(world).wf(),
        exists|rs: Seq<Set<ReservationKey>>, outs: Seq<Option<(usize, Job)>>, ws: Seq<SimWorld>, rs2: Seq<Set<ReservationKey>>, dones: Seq<Option<TaskId>>|
            {
                &&& #[trigger] judge_trace(old(world), events@, rs, outs)
                &&& rs[0] == old(res)@
                &&& #[trigger] apply_trace(somes(outs), ws, rs2, dones)
                &&& ws[0] == *old(world)
                &&& rs2[0] == rs.last()
                &&& ws.last() == *final(world)
                &&& rs2.last() == final(res)@
                &&& done@ == done_ids(dones)
            },
{
    let ghost w0 = *world;
    let mut muts: Vec<(usize, Job)> = Vec::new();
    let ghost mut rs: Seq<Set<ReservationKey>> = seq![res@];
    let ghost mut outs: Seq<Option<(usize, Job)>> = Seq::empty();
    let mut k: usize = 0;
    while k < events.len()
        invariant
            eval_ready(world),
            events_ok(world, events@),
            *world == w0,
            k <= events@.len(),
            rs.len() == k + 1,
            outs.len() == k,
            rs[0] == old(res)@,
            rs.last() == res@,
            forall|kk: int| 0 <= kk < k ==> #[trigger] event_outcome(world, events@[kk], rs[kk], outs[kk], rs[kk + 1]),
            muts@ == somes(outs),
            forall|a: int| 0 <= a < muts@.len() ==> (#[trigger] muts@[a]).0 < world.pawns@.len(),
        decreases events@.len() - k,
    {
        let ghost rs0 = rs;
        let ghost outs0 = outs;
        proof {
            assert(event_ok(world, events@[k as int]));
        }
        let out = judge_event(world, &events[k], res);
        let ghost og = out;
        match out {
            Some(m) => {
                muts.push(m);
            },
            None => {},
        }
        proof {
            rs = rs.push(res@);
            outs = outs.push(og);
            assert(outs.drop_last() =~= outs0);
            assert forall|kk: int| 0 <= kk < k + 1 implies #[trigger] event_outcome(
                world,
                events@[kk],
                rs[kk],
                outs[kk],
                rs[kk + 1],
            ) by {
                if kk < k {
                    assert(rs[kk] == rs0[kk] && rs[kk + 1] == rs0[kk + 1] && outs[kk] == outs0[kk]);
                }
            }
            assert forall|a: int| 0 <= a < muts@.len() implies (#[trigger] muts@[a]).0 < world.pawns@.len() by {
                if a == muts@.len() - 1 && og is Some {
                    assert(has_pawn(world.pawns@, events@[k as int].pawn_id));
                }
            }
        }
        k = k + 1;
    }
    let ghost ms = muts@;
    let ghost rs_end = res@;
    let mut done: Vec<TaskId> = Vec::new();
    let ghost mut ws: Seq<SimWorld> = seq![*world];
    let ghost mut rs2: Seq<Set<ReservationKey>> = seq![res@];
    let ghost mut dones: Seq<Option<TaskId>> = Seq::empty();
    let mut j: usize = 0;
    let n = muts.len();
    while muts.len() > 0
        invariant
            world.wf(),
            world.pawns@.len() == w0.pawns@.len(),
            n == ms.len(),
            j + muts@.len() == n,
            muts@ == ms.skip(j as int),
            forall|a: int| 0 <= a < ms.len() ==> (#[trigger] ms[a]).0 < w0.pawns@.len(),
            ws.len() == j + 1,
            rs2.len() == j + 1,
            dones.len() == j,
            ws[0] == w0,
            rs2[0] == rs_end,
            ws.last() == *world,
            rs2.last() == res@,
            forall|kk: int| 0 <= kk < j ==> #[trigger] apply_post(&ws[kk], rs2[kk], ms[kk], &ws[kk + 1], rs2[kk + 1], dones[kk]),
            done@ == done_ids(dones),
        decreases muts@.len(),
    {
        let ghost ws0 = ws;
        let ghost rs20 = rs2;
        let ghost dones0 = dones;
        let ghost wm = *world;
        let ghost rm = res@;
        proof {
            assert(muts@[0] == ms[j as int]);
            assert(ms.skip(j as int).drop_first() =~= ms.skip(j as int + 1));
        }
        let (pi, job) = muts.remove(0);
        let d = apply_job(world, pi, job, res);
        match d {
            Some(t) => {
                done.push(t);
            },
            None => {},
        }
        proof {
            ws = ws.push(*world);
            rs2 = rs2.push(res@);
            dones = dones.push(d);
            assert(dones.drop_last() =~= dones0);
            assert forall|kk: int| 0 <= kk < j + 1 implies #[trigger] apply_post(
                &ws[kk],
                rs2[kk],
                ms[kk],
                &ws[kk + 1],
                rs2[kk + 1],
                dones[kk],
            ) by {
                if kk < j {
                    assert(ws[kk] == ws0[kk] && ws[kk + 1] == ws0[kk + 1]);
                    assert(rs2[kk] == rs20[kk] && rs2[kk + 1] == rs20[kk + 1] && dones[kk] == dones0[kk]);
                } else {
                    assert(ws[kk] == wm && rs2[kk] == rm);
                }
            }
        }
        j = j + 1;
    }
    proof {
        assert(judge_trace(&w0, events@, rs, outs));
        assert(apply_trace(somes(outs), ws, rs2, dones));
    }
    done
}


// ---- finishing tasks ----

/// Board `b` is board `a` with every task whose id is in `ids` marked done.
pub open spec fn marked_done(a: &crate::tasks::TaskBoard, b: &crate::tasks::TaskBoard, ids: Seq<TaskId>) -> bool {
    &&& b.wf()
    &&& b.index == a.index
    &&& b.tasks@.len() == a.tasks@.len()
    &&& forall|i: int|
        0 <= i < a.tasks@.len() ==> #[trigger] b.tasks@[i] == if ids.contains(a.tasks@[i].id) {
            crate::tasks::Task { id: a.tasks@[i].id, spec: a.tasks@[i].spec, status: TaskStatus::Done }
        } else {
            a.tasks@[i]
        }
}

/// Mark the tasks `ids` as done.
pub fn mark_tasks_as_done(board: &mut crate::tasks::TaskBoard, ids: &Vec<TaskId>)
    requires
        old(board).wf(),
        forall|k: int| 0 <= k < ids@.len() ==> has_task(old(board).tasks@, #[trigger] ids@[k]),
    ensures
        marked_done(old(board), final(board), ids@),
{
    let mut k: usize = 0;
    while k < ids.len()
        invariant
            k <= ids@.len(),
            forall|kk: int| 0 <= kk < ids@.len() ==> has_task(old(board).tasks@, #[trigger] ids@[kk]),
            marked_done(old(board), board, ids@.take(k as int)),
        decreases ids@.len() - k,
    {
        let ghost b0 = *board;
        proof {
            assert(has_task(old(board).tasks@, ids@[k as int]));
            let i = choose|i: int| 0 <= i < old(board).tasks@.len() && old(board).tasks@[i].id == ids@[k as int];
            assert(board.tasks@[i].id == ids@[k as int]);
        }
        board.mark_done(ids[k]);
        proof {
            assert(ids@.take(k as int + 1) =~= ids@.take(k as int).push(ids@[k as int]));
            assert forall|i: int| 0 <= i < old(board).tasks@.len() implies #[trigger] board.tasks@[i] == if ids@.take(
                k as int + 1,
            ).contains(old(board).tasks@[i].id) {
                crate::tasks::Task {
                    id: old(board).tasks@[i].id,
                    spec: old(board).tasks@[i].spec,
                    status: TaskStatus::Done,
                }
            } else {
                old(board).tasks@[i]
            } by {
                crate::components::lemma_push_contains(ids@.take(k as int), ids@[k as int], old(board).tasks@[i].id);
                assert(b0.tasks@[i].id == old(board).tasks@[i].id);
            }
        }
        k = k + 1;
    }
    assert(ids@.take(ids@.len() as int) =~= ids@);
}

// ---- time passing ----

/// A need meter one unit lower, but not below zero.
pub open spec fn decayed(q: Q40p24) -> Q40p24 {
    let d = vstd::wrapping::i64_specs::wrapping_sub(q.0, crate::fixed_point::scale() as i64);
    Q40p24(if d > 0 { d } else { 0 })
}

/// One tick of time: every pawn gets one unit hungrier and sleepier (down to
/// zero), and every growing bush one tick closer to harvest (down to zero).
pub open spec fn environment_post(w: &SimWorld, w2: &SimWorld) -> bool {
    &&& w2.pawns@.len() == w.pawns@.len()
    &&& forall|i: int|
        0 <= i < w.pawns@.len() ==> #[trigger] w2.pawns@[i] == (PawnEntity {
            pawn: crate::components::Pawn {
                hunger: decayed(w.pawns@[i].pawn.hunger),
                sleep: decayed(w.pawns@[i].pawn.sleep),
                ..w.pawns@[i].pawn
            },
            ..w.pawns@[i]
        })
    &&& w2.fixtures@.len() == w.fixtures@.len()
    &&& forall|i: int|
        0 <= i < w.fixtures@.len() ==> #[trigger] w2.fixtures@[i] == (crate::world::FixtureEntity {
            harvestable: match w.fixtures@[i].harvestable {
                Some(h) => Some(
                    crate::components::Harvestable {
                        countdown: if h.countdown > 0 {
                            (h.countdown - 1) as u32
                        } else {
                            0
                        },
                        ..h
                    },
                ),
                None => None,
            },
            ..w.fixtures@[i]
        })
    &&& frame(w, w2, (Touch { pawns: true, fixtures: true, ..touch_none() }))
}

/// One tick of time lowers each pawn's hunger and sleep meters by one unit
/// (2^24) but not below zero: each becomes the larger of its old value less one
/// unit and zero, so no meter is negative afterwards and a meter at or below one
/// unit reaches zero. Each bush countdown drops by one, stopping at zero.
/// Nothing else about a pawn or a fixture changes, and none comes or goes.
pub proof fn law_time_passes(w: SimWorld, w2: SimWorld)
    requires
        environment_post(&w, &w2),
    ensures
        w2.pawns@.len() == w.pawns@.len(),
        w2.fixtures@.len() == w.fixtures@.len(),
        forall|i: int|
            #![trigger w2.pawns@[i]]
            0 <= i < w.pawns@.len() ==> {
                let h = w.pawns@[i].pawn.hunger.0;
                let z = w.pawns@[i].pawn.sleep.0;
                &&& w2.pawns@[i].pawn.hunger.0 >= 0
                &&& w2.pawns@[i].pawn.sleep.0 >= 0
                &&& h >= i64::MIN + 16777216 ==> w2.pawns@[i].pawn.hunger.0 == if h - 16777216 > 0 {
                    h - 16777216
                } else {
                    0
                }
                &&& z >= i64::MIN + 16777216 ==> w2.pawns@[i].pawn.sleep.0 == if z - 16777216 > 0 {
                    z - 16777216
                } else {
                    0
                }
                &&& w2.pawns@[i].pawn.id == w.pawns@[i].pawn.id
                &&& w2.pawns@[i].pawn.inventory == w.pawns@[i].pawn.inventory
                &&& w2.pawns@[i].pos == w.pawns@[i].pos
                &&& w2.pawns@[i].job == w.pawns@[i].job
            },
        forall|i: int|
            #![trigger w2.fixtures@[i]]
            0 <= i < w.fixtures@.len() ==> {
                &&& w2.fixtures@[i].fixture == w.fixtures@[i].fixture
                &&& w2.fixtures@[i].pos == w.fixtures@[i].pos
                &&& (w.fixtures@[i].harvestable is None <==> w2.fixtures@[i].harvestable is None)
                &&& (w.fixtures@[i].harvestable matches Some(hv) ==> w2.fixtures@[i].harvestable->0.countdown == if hv.countdown
                    > 0 {
                    hv.countdown - 1
                } else {
                    0
                } && w2.fixtures@[i].harvestable->0.seq_num == hv.seq_num)
            },
{
}

/// Let one tick of time pass (`environment_post`).
pub fn environment_step(world: &mut SimWorld)
    requires
        old(world).wf(),
    ensures
        final(world).wf(),
        environment_post(old(world), final(world)),
{
    let ghost w0 = *world;
    let one = Q40p24::one();
    let mut i: usize = 0;
    while i < world.pawns.len()
        invariant
            i <= world.pawns@.len(),
            world.pawns@.len() == w0.pawns@.len(),
            one.0 == crate::fixed_point::scale(),
            forall|j: int|
                0 <= j < w0.pawns@.len() ==> #[trigger] world.pawns@[j] == if j < i {
                    PawnEntity {
                        pawn: crate::components::Pawn {
                            hunger: decayed(w0.pawns@[j].pawn.hunger),
                            sleep: decayed(w0.pawns@[j].pawn.sleep),
                            ..w0.pawns@[j].pawn
                        },
                        ..w0.pawns@[j]
                    }
                } else {
                    w0.pawns@[j]
                },
            frame(&w0, world, (Touch { pawns: true, ..touch_none() })),
        decreases w0.pawns@.len() - i,
    {
        let h = world.pawns[i].pawn.hunger - one;
        world.pawns[i].pawn.hunger = if h.0 > 0 { h } else { Q40p24::zero() };
        let s = world.pawns[i].pawn.sleep - one;
        world.pawns[i].pawn.sleep = if s.0 > 0 { s } else { Q40p24::zero() };
        i = i + 1;
    }
    let ghost w1 = *world;
    let mut i: usize = 0;
    while i < world.fixtures.len()
        invariant
            i <= world.fixtures@.len(),
            world.fixtures@.len() == w1.fixtures@.len(),
            forall|j: int|
                0 <= j < w1.fixtures@.len() ==> #[trigger] world.fixtures@[j] == if j < i {
                    crate::world::FixtureEntity {
                        harvestable: match w1.fixtures@[j].harvestable {
                            Some(h) => Some(
                                crate::components::Harvestable {
                                    countdown: if h.countdown > 0 {
                                        (h.countdown - 1) as u32
                                    } else {
                                        0
                                    },
                                    ..h
                                },
                            ),
                            None => None,
                        },
                        ..w1.fixtures@[j]
                    }
                } else {
                    w1.fixtures@[j]
                },
            frame(&w1, world, (Touch { fixtures: true, ..touch_none() })),
        decreases w1.fixtures@.len() - i,
    {
        match world.fixtures[i].harvestable {
            Some(h) => {
                let c = if h.countdown > 0 { h.countdown - 1 } else { 0 };
                world.fixtures[i].harvestable = Some(crate::components::Harvestable { countdown: c, seq_num: h.seq_num });
            },
            None => {},
        }
        i = i + 1;
    }
    proof {
        assert(w1.fixtures@ == w0.fixtures@);
        lemma_wf_same_ids(&w0, world);
    }
}


// ---- checks ----

/// Whether every task on the board can be planned and names bounded tiles.
#[verifier::loop_isolation(false)]
pub fn board_check(board: &crate::tasks::TaskBoard) -> (r: bool)
    ensures
        r == (board_plannable(board) && crate::scheduling::tasks_bounded(board)),
{
    let mut i: usize = 0;
    while i < board.tasks.len()
        invariant
            i <= board.tasks@.len(),
            forall|j: int| 0 <= j < i ==> crate::planning::task_plannable(#[trigger] board.tasks@[j].spec),
            forall|j: int| 0 <= j < i ==> crate::scheduling::task_bounded(#[trigger] board.tasks@[j].spec),
        decreases board.tasks@.len() - i,
    {
        match &board.tasks[i].spec {
            TaskSpec::Build(b) => {
                if !crate::world::tile_in_bounds(b.top_left) || b.required_items.len() == 0 {
                    return false;
                }
                let mut k: usize = 0;
                while k < b.required_items.len()
                    invariant
                        k <= b.required_items@.len(),
                        forall|m: int| 0 <= m < k ==> #[trigger] b.required_items@[m].1 > 0,
                    decreases b.required_items@.len() - k,
                {
                    if b.required_items[k].1 == 0 {
                        proof {
                            assert(!crate::planning::task_plannable(board.tasks@[i as int].spec));
                        }
                        return false;
                    }
                    k = k + 1;
                }
            },
            TaskSpec::Plant(tile, _) => {
                if !crate::world::tile_in_bounds(*tile) {
                    return false;
                }
            },
            TaskSpec::Harvest { .. } => {},
        }
        i = i + 1;
    }
    true
}

/// Whether the events can be judged (`events_ok`).
#[verifier::loop_isolation(false)]
pub fn events_check(world: &SimWorld, events: &Vec<ToilEvent>) -> (r: bool)
    requires
        world.wf(),
    ensures
        r == events_ok(world, events@),
{
    let n = events.len();
    let mut k: usize = 0;
    while k < n
        invariant
            world.wf(),
            n == events@.len(),
            k <= n,
            forall|kk: int| 0 <= kk < k ==> event_ok(world, #[trigger] events@[kk]),
            forall|a: int, b: int| 0 <= a < b < k ==> events@[a].pawn_id != events@[b].pawn_id,
        decreases n - k,
    {
        let ev = &events[k];
        let pi = match world.find_pawn(ev.pawn_id) {
            None => {
                return false;
            },
            Some(pi) => pi,
        };
        let job = &world.pawns[pi].job;
        let ok = match &ev.failure_reason {
            None => match &job.plan {
                None => false,
                Some(p) => {
                    if p.toils.len() > 0 {
                        true
                    } else {
                        match job.kind {
                            JobKind::Task(tid, _) => match world.task_board.find(tid) {
                                None => false,
                                Some(ti) => job.retries < 255 || world.task_board.tasks[ti].spec.completed(world),
                            },
                            _ => true,
                        }
                    }
                },
            },
            Some(_) => true,
        };
        if !ok {
            return false;
        }
        let mut a: usize = 0;
        while a < k
            invariant
                a <= k,
                k < n,
                n == events@.len(),
                forall|aa: int| 0 <= aa < a ==> events@[aa].pawn_id != events@[k as int].pawn_id,
            decreases k - a,
        {
            if events[a].pawn_id.0 == ev.pawn_id.0 {
                proof {
                    assert(events@[a as int].pawn_id == events@[k as int].pawn_id);
                }
                return false;
            }
            a = a + 1;
        }
        k = k + 1;
    }
    true
}

/// Whether every id of `ids` is on the board.
fn ids_on_board(board: &crate::tasks::TaskBoard, ids: &Vec<TaskId>) -> (r: bool)
    ensures
        r == forall|k: int| 0 <= k < ids@.len() ==> has_task(board.tasks@, #[trigger] ids@[k]),
{
    let mut k: usize = 0;
    while k < ids.len()
        invariant
            k <= ids@.len(),
            forall|kk: int| 0 <= kk < k ==> has_task(board.tasks@, #[trigger] ids@[kk]),
        decreases ids@.len() - k,
    {
        if board.find(ids[k]).is_none() {
            return false;
        }
        k = k + 1;
    }
    true
}


// ---- a whole tick ----

/// Why a tick cannot run to its end (the same run would panic).
#[derive(Debug, Clone, Copy, PartialEq, Eq, Structural)]
pub enum TickFault {
    /// The world is not ready for scheduling (`sched_ready`). Besides what
    /// scheduling needs of the world itself, this is the case when some
    /// position lies outside the square `tile_bounded` gives, where a distance
    /// between two tiles may no longer fit the `i32` it is computed in.
    NotReady,
    /// A pawn's job step is a fault.
    Step(StepFault),
    /// The toils that ended cannot be judged (`eval_ready`, `events_ok`).
    Judge,
    /// A task reported done is not on the board.
    UnknownTask,
}

/// Scheduling took `w0`, `r0` to `w1`, `r1` (as `schedule_pawns` states).
pub open spec fn scheduled(w0: SimWorld, r0: Set<ReservationKey>, w1: SimWorld, r1: Set<ReservationKey>) -> bool {
    exists|order: Seq<usize>, ws: Seq<SimWorld>, rs: Seq<Set<ReservationKey>>|
        #[trigger] sched_trace(w0, r0, order, ws, rs) && by_id(&w0, order) && ws.last() == w1 && rs.last() == r1
}

/// Stepping every pawn's job took `w1` to `w2` with the events `evs` (as
/// `step_jobs` states).
pub open spec fn stepped(w1: SimWorld, w2: SimWorld, evs: Seq<ToilEvent>) -> bool {
    exists|ws: Seq<SimWorld>, outs: Seq<Option<ToilEvent>>|
        #[trigger] steps_trace(w1, ws, outs, w1.pawns@.len() as int) && ws.last() == w2 && evs == events_of(outs)
}

/// Judging the events `evs` took `w2`, `r2` to `w3`, `r3`, with the tasks `done`
/// left done (as `evaluate_job` states).
pub open spec fn judged(
    w2: SimWorld,
    r2: Set<ReservationKey>,
    evs: Seq<ToilEvent>,
    w3: SimWorld,
    r3: Set<ReservationKey>,
    done: Seq<TaskId>,
) -> bool {
    exists|rs: Seq<Set<ReservationKey>>, outs: Seq<Option<(usize, Job)>>, ws: Seq<SimWorld>, rs2: Seq<Set<ReservationKey>>, dones: Seq<Option<TaskId>>|
        {
            &&& #[trigger] judge_trace(&w2, evs, rs, outs)
            &&& rs[0] == r2
            &&& #[trigger] apply_trace(somes(outs), ws, rs2, dones)
            &&& ws[0] == w2
            &&& rs2[0] == rs.last()
            &&& ws.last() == w3
            &&& rs2.last() == r3
            &&& done == done_ids(dones)
        }
}

/// Stepping the jobs of `w1` stopped at a pawn whose step is the fault `f`,
/// leaving `w2` (as `step_jobs` states of its faults).
pub open spec fn step_faulted(w1: SimWorld, w2: SimWorld, f: StepFault) -> bool {
    exists|ws: Seq<SimWorld>, outs: Seq<Option<ToilEvent>>|
        #[trigger] steps_trace(w1, ws, outs, outs.len() as int) && outs.len() < w1.pawns@.len() && ws.last() == w2
            && pawn_step(&w2, outs.len() as int, &w2, Err(f))
}

/// The world after stepping, and the events, can be judged.
pub open spec fn judge_ready(w2: SimWorld, evs: Seq<ToilEvent>) -> bool {
    &&& coords_bounded(&w2)
    &&& board_plannable(&w2.task_board)
    &&& crate::scheduling::tasks_bounded(&w2.task_board)
    &&& events_ok(&w2, evs)
}

/// One whole tick from `w0`, `r0` to `w5`, `r5`: schedule the pawns, step their
/// jobs, judge the toils that ended, mark the tasks they finished as done, and
/// let time pass.
pub open spec fn tick_post(w0: SimWorld, r0: Set<ReservationKey>, w5: SimWorld, r5: Set<ReservationKey>, done: Seq<TaskId>) -> bool {
    exists|w1: SimWorld, r1: Set<ReservationKey>, w2: SimWorld, evs: Seq<ToilEvent>, w3: SimWorld, w4: SimWorld|
        {
            &&& #[trigger] scheduled(w0, r0, w1, r1)
            &&& #[trigger] stepped(w1, w2, evs)
            &&& #[trigger] judged(w2, r1, evs, w3, r5, done)
            &&& marked_done(&w3.task_board, &w4.task_board, done)
            &&& frame(&w3, &w4, (Touch { task_board: true, ..touch_none() }))
            &&& #[trigger] environment_post(&w4, &w5)
        }
}

/// Run one tick (`tick_post`); a fault stops the tick where the same run would
/// panic.
pub fn tick(world: &mut SimWorld, res: &mut Reservations) -> (r: Result<Vec<TaskId>, TickFault>)
    requires
        old(world).wf(),
    ensures
        final(world).wf(),
        r matches Ok(done) ==> tick_post(*old(world), old(res)@, *final(world), final(res)@, done@),
        r == Err::<Vec<TaskId>, TickFault>(TickFault::NotReady) <==> !sched_ready(old(world)),
        r == Err::<Vec<TaskId>, TickFault>(TickFault::NotReady) ==> *final(world) == *old(world) && final(res)@
            == old(res)@,
        r matches Err(TickFault::Step(f)) ==> exists|w1: SimWorld|
            #[trigger] scheduled(*old(world), old(res)@, w1, final(res)@) && step_faulted(w1, *final(world), f),
        r == Err::<Vec<TaskId>, TickFault>(TickFault::Judge) ==> exists|w1: SimWorld, evs: Seq<ToilEvent>|
            #[trigger] scheduled(*old(world), old(res)@, w1, final(res)@) && #[trigger] stepped(w1, *final(world), evs)
                && !judge_ready(*final(world), evs),
        r == Err::<Vec<TaskId>, TickFault>(TickFault::UnknownTask) ==> exists|
            w1: SimWorld,
            r1: Set<ReservationKey>,
            w2: SimWorld,
            evs: Seq<ToilEvent>,
            done: Seq<TaskId>,
        |
            #[trigger] scheduled(*old(world), old(res)@, w1, r1) && #[trigger] stepped(w1, w2, evs) && judge_ready(w2, evs)
                && #[trigger] judged(w2, r1, evs, *final(world), final(res)@, done) && !(forall|k: int|
                0 <= k < done.len() ==> has_task(final(world).task_board.tasks@, #[trigger] done[k])),
{
    let ghost w0 = *world;
    let ghost r0 = res@;
    if !(world.coords_check() && world.jobs_check() && board_check(&world.task_board)) {
        return Err(TickFault::NotReady);
    }
    schedule_pawns(world, res);
    let ghost w1 = *world;
    let ghost r1 = res@;
    let events = match step_jobs(world) {
        Ok(evs) => evs,
        Err(f) => {
            proof {
                assert(scheduled(w0, r0, w1, r1));
                assert(step_faulted(w1, *world, f));
            }
            return Err(TickFault::Step(f));
        },
    };
    let ghost w2 = *world;
    proof {
        assert(stepped(w1, w2, events@));
    }
    if !(world.coords_check() && board_check(&world.task_board) && events_check(world, &events)) {
        proof {
            assert(scheduled(w0, r0, w1, r1));
            assert(!judge_ready(w2, events@));
        }
        return Err(TickFault::Judge);
    }
    let done = evaluate_job(world, res, &events);
    let ghost w3 = *world;
    if !ids_on_board(&world.task_board, &done) {
        proof {
            assert(scheduled(w0, r0, w1, r1));
            assert(judged(w2, r1, events@, w3, res@, done@));
        }
        return Err(TickFault::UnknownTask);
    }
    mark_tasks_as_done(&mut world.task_board, &done);
    let ghost w4 = *world;
    proof {
        lemma_wf_board_marked(&w3, &w4);
    }
    environment_step(world);
    proof {
        assert(scheduled(w0, r0, w1, r1));
        assert(stepped(w1, w2, events@));
        assert(judged(w2, r1, events@, w3, res@, done@));
        assert(tick_post(w0, r0, *world, res@, done@));
    }
    Ok(done)
}

/// Marking tasks done keeps the world well formed.
proof fn lemma_wf_board_marked(a: &SimWorld, b: &SimWorld)
    requires
        a.wf(),
        b.task_board.wf(),
        frame(a, b, (Touch { task_board: true, ..touch_none() })),
    ensures
        b.wf(),
{
    lemma_wf_same_ids(a, b);
}

} // verus!
