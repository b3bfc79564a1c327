//! Tasks, jobs, plans and toils, and the board that tracks tasks.
use vstd::prelude::*;
use std::collections::VecDeque;
use crate::components::{FixtureKind, ItemKind};
use crate::grid::TileId;
use crate::ids::{FixtureId, IdIndex, ItemId, PawnId, TaskId, next_alloc};
use crate::reservations::HeldReservations;

verus! {

/// What a building needs and where it goes.
#[derive(Debug, PartialEq, Eq)]
pub struct BuildingSpec {
    pub top_left: TileId,
    pub dim: (u32, u32),
    pub fixture_kind: FixtureKind,
    pub required_items: Vec<(ItemKind, u32)>,
    pub work_units: u32,
}

impl BuildingSpec {
    /// Same fields, with the same required items.
    pub open spec fn same(&self, other: &BuildingSpec) -> bool {
        &&& self.top_left == other.top_left
        &&& self.dim == other.dim
        &&& self.fixture_kind == other.fixture_kind
        &&& self.required_items@ == other.required_items@
        &&& self.work_units == other.work_units
    }

    /// A copy with the same fields.
    pub fn copy(&self) -> (r: Self)
        ensures
            r.same(self),
    {
        let mut items: Vec<(ItemKind, u32)> = Vec::new();
        let mut i: usize = 0;
        while i < self.required_items.len()
            invariant
                i <= self.required_items@.len(),
                items@ == self.required_items@.take(i as int),
            decreases self.required_items@.len() - i,
        {
            items.push(self.required_items[i]);
            i = i + 1;
            assert(items@ =~= self.required_items@.take(i as int));
        }
        assert(items@ =~= self.required_items@);
        BuildingSpec {
            top_left: self.top_left,
            dim: self.dim,
            fixture_kind: self.fixture_kind,
            required_items: items,
            work_units: self.work_units,
        }
    }
}

/// Kinds of tasks, used for work priorities.
#[derive(Debug, Clone, Copy, PartialEq, Eq, Structural, Hash)]
pub enum TaskSpecKind {
    Harvest,
    Plant,
    Build,
}

/// What a task asks for.
#[derive(Debug, PartialEq, Eq)]
pub enum TaskSpec {
    /// Harvest a fixture; `target_seq_num` is the harvest count once the
    /// harvest has completed.
    Harvest { to_harvest: FixtureId, target_seq_num: u32 },
    Plant(TileId, ItemKind),
    Build(BuildingSpec),
}

impl TaskSpec {
    pub open spec fn kind_of(&self) -> TaskSpecKind {
        match self {
            TaskSpec::Harvest { .. } => TaskSpecKind::Harvest,
            TaskSpec::Plant(_, _) => TaskSpecKind::Plant,
            TaskSpec::Build(_) => TaskSpecKind::Build,
        }
    }

    pub fn kind(&self) -> (r: TaskSpecKind)
        ensures
            r == self.kind_of(),
    {
        match self {
            TaskSpec::Harvest { .. } => TaskSpecKind::Harvest,
            TaskSpec::Plant(_, _) => TaskSpecKind::Plant,
            TaskSpec::Build(_) => TaskSpecKind::Build,
        }
    }

    /// Same variant and fields (building specs compared by `same`).
    pub open spec fn same(&self, other: &TaskSpec) -> bool {
        match (self, other) {
            (TaskSpec::Build(a), TaskSpec::Build(b)) => a.same(b),
            (TaskSpec::Build(_), _) => false,
            (_, TaskSpec::Build(_)) => false,
            _ => self == other,
        }
    }

    /// A copy with the same fields.
    pub fn copy(&self) -> (r: Self)
        ensures
            r.same(self),
            r.kind_of() == self.kind_of(),
    {
        match self {
            TaskSpec::Harvest { to_harvest, target_seq_num } => TaskSpec::Harvest {
                to_harvest: *to_harvest,
                target_seq_num: *target_seq_num,
            },
            TaskSpec::Plant(t, k) => TaskSpec::Plant(*t, *k),
            TaskSpec::Build(b) => TaskSpec::Build(b.copy()),
        }
    }
}

/// Where a task is in its life.
#[derive(Debug, Clone, Copy, PartialEq, Eq, Structural)]
pub enum TaskStatus {
    Pending,
    Assigned(PawnId),
    Done,
    Cancelled,
}

#[derive(Debug, PartialEq, Eq)]
pub struct Task {
    pub id: TaskId,
    pub spec: TaskSpec,
    pub status: TaskStatus,
}

/// The task kinds a pawn works on, most preferred first.
#[derive(Debug, Clone, PartialEq, Eq)]
pub struct WorkPriority(pub Vec<TaskSpecKind>);

/// What a pawn is doing.
#[derive(Debug, Clone, Copy, PartialEq, Eq, Structural)]
pub enum JobKind {
    Task(TaskId, TaskSpecKind),
    Sleep,
    Eat,
    /// No job (named `None` upstream; the word is reserved here).
    Idle,
}

/// One step of a plan.
#[derive(Debug, PartialEq, Eq)]
pub enum ToilKind {
    PlaceConstructionSite { building_spec: BuildingSpec },
    Build { fixture_id: FixtureId },
    MoveTo { target: TileId, path: VecDeque<TileId> },
    PickUpItem { item_id: ItemId },
    PutDownItem { item_id: ItemId, target_tile: TileId },
    StoreItem { item_id: ItemId, target_fixture_id: FixtureId },
    Plant { seed_id: ItemId, tile_id: TileId },
    Consume { item_id: ItemId },
    Sleep { fixture_id: FixtureId },
    Harvest { fixture_id: FixtureId },
}

/// A toil as a value: what a `ToilKind` holds, with sequences in place of its
/// queues and vectors.
pub enum ToilModel {
    PlaceConstructionSite(TileId, (u32, u32), FixtureKind, Seq<(ItemKind, u32)>, u32),
    Build(FixtureId),
    MoveTo(TileId, Seq<TileId>),
    PickUpItem(ItemId),
    PutDownItem(ItemId, TileId),
    StoreItem(ItemId, FixtureId),
    Plant(ItemId, TileId),
    Consume(ItemId),
    Sleep(FixtureId),
    Harvest(FixtureId),
}

impl View for ToilKind {
    type V = ToilModel;

    open spec fn view(&self) -> ToilModel {
        match self {
            ToilKind::PlaceConstructionSite { building_spec: b } => ToilModel::PlaceConstructionSite(
                b.top_left,
                b.dim,
                b.fixture_kind,
                b.required_items@,
                b.work_units,
            ),
            ToilKind::Build { fixture_id } => ToilModel::Build(*fixture_id),
            ToilKind::MoveTo { target, path } => ToilModel::MoveTo(*target, path@),
            ToilKind::PickUpItem { item_id } => ToilModel::PickUpItem(*item_id),
            ToilKind::PutDownItem { item_id, target_tile } => ToilModel::PutDownItem(*item_id, *target_tile),
            ToilKind::StoreItem { item_id, target_fixture_id } => ToilModel::StoreItem(
                *item_id,
                *target_fixture_id,
            ),
            ToilKind::Plant { seed_id, tile_id } => ToilModel::Plant(*seed_id, *tile_id),
            ToilKind::Consume { item_id } => ToilModel::Consume(*item_id),
            ToilKind::Sleep { fixture_id } => ToilModel::Sleep(*fixture_id),
            ToilKind::Harvest { fixture_id } => ToilModel::Harvest(*fixture_id),
        }
    }
}

impl ToilKind {
    /// The target of a MoveTo toil.
    pub fn move_to_target(&self) -> (r: Option<TileId>)
        ensures
            r == match self {
                ToilKind::MoveTo { target, .. } => Some(*target),
                _ => None::<TileId>,
            },
    {
        match self {
            ToilKind::MoveTo { target, .. } => Some(*target),
            _ => None,
        }
    }
}

/// The toils still to run, and the reservations they rely on.
#[derive(Debug, PartialEq, Eq)]
pub struct Plan {
    pub toils: VecDeque<ToilKind>,
    pub reservations: HeldReservations,
}

impl Plan {
    /// No toil, no reservation.
    pub fn new() -> (r: Self)
        ensures
            r.toils@.len() == 0,
            r.reservations@.len() == 0,
    {
        Plan { toils: VecDeque::new(), reservations: HeldReservations::new() }
    }
}

/// A pawn's current job.
#[derive(Debug, PartialEq, Eq)]
pub struct Job {
    pub kind: JobKind,
    pub plan: Option<Plan>,
    pub retries: u8,
}

impl Job {
    pub fn new(kind: JobKind, plan: Plan) -> (r: Self)
        ensures
            r.kind == kind,
            r.plan == Some(plan),
            r.retries == 0,
    {
        Job { kind, plan: Some(plan), retries: 0 }
    }

    /// No job.
    pub fn idle() -> (r: Self)
        ensures
            r.kind == JobKind::Idle,
            r.plan is None,
            r.retries == 0,
    {
        Job { kind: JobKind::Idle, plan: None, retries: 0 }
    }
}

/// How a toil step ended.
#[derive(Debug, PartialEq, Eq)]
pub enum ToilResult {
    Done,
    Failed(String),
    Running,
}

impl ToilResult {
    pub fn failure_reason(&self) -> (r: Option<String>)
        ensures
            match self {
                ToilResult::Failed(reason) => r matches Some(s) && s@ == reason@,
                _ => r is None,
            },
    {
        match self {
            ToilResult::Failed(reason) => Some(reason.clone()),
            _ => None,
        }
    }
}

/// A toil that finished (or failed) for a pawn.
#[derive(Debug, PartialEq, Eq)]
pub struct ToilEvent {
    pub pawn_id: PawnId,
    pub toil: ToilKind,
    pub failure_reason: Option<String>,
}

/// The ids of the tasks of `ts` whose status and kind pass the filter, in order.
pub open spec fn ids_where(ts: Seq<Task>, f: spec_fn(Task) -> bool) -> Seq<TaskId>
    decreases ts.len(),
{
    if ts.len() == 0 {
        Seq::empty()
    } else if f(ts.last()) {
        ids_where(ts.drop_last(), f).push(ts.last().id)
    } else {
        ids_where(ts.drop_last(), f)
    }
}

/// The position of the task with id `id` in `ts`.
pub open spec fn task_pos(ts: Seq<Task>, id: TaskId) -> int {
    choose|i: int| 0 <= i < ts.len() && ts[i].id == id
}

pub open spec fn has_task(ts: Seq<Task>, id: TaskId) -> bool {
    exists|i: int| 0 <= i < ts.len() && ts[i].id == id
}

/// Board `b` is board `a` with the status of task `id` set to `status`.
pub open spec fn status_set(a: &TaskBoard, b: &TaskBoard, id: TaskId, status: TaskStatus) -> bool {
    &&& b.wf()
    &&& b.index == a.index
    &&& b.tasks@.len() == a.tasks@.len()
    &&& forall|i: int|
        0 <= i < a.tasks@.len() ==> #[trigger] b.tasks@[i] == if a.tasks@[i].id == id {
            Task { id, spec: a.tasks@[i].spec, status }
        } else {
            a.tasks@[i]
        }
}

/// All tasks, in the order they were added.
#[derive(Debug)]
pub struct TaskBoard {
    pub index: IdIndex<TaskId>,
    pub tasks: Vec<Task>,
}

impl TaskBoard {
    /// Task ids are distinct and registered in the index.
    pub open spec fn wf(&self) -> bool {
        &&& forall|i: int, j: int|
            0 <= i < j < self.tasks@.len() ==> self.tasks@[i].id != self.tasks@[j].id
        &&& forall|i: int| 0 <= i < self.tasks@.len() ==> self.index.has(#[trigger] self.tasks@[i].id)
    }

    /// No task yet.
    pub fn new() -> (r: Self)
        ensures
            r.wf(),
            r.tasks@.len() == 0,
            r.index.view() == Map::<u64, Option<crate::ids::Entity>>::empty(),
    {
        TaskBoard { index: IdIndex::new(), tasks: Vec::new() }
    }

    /// Add a never before seen task to the pending state.
    pub fn add_task(&mut self, spec: TaskSpec) -> (id: TaskId)
        requires
            old(self).wf(),
            !old(self).index.view().contains_key(u64::MAX),
        ensures
            final(self).wf(),
            id.0 == next_alloc(old(self).index.view()),
            !has_task(old(self).tasks@, id),
            final(self).tasks@ == old(self).tasks@.push(Task { id, spec, status: TaskStatus::Pending }),
            final(self).index.view() == old(self).index.view().insert(id.0, None),
    {
        let id = self.index.alloc_id(None);
        let task = Task { id, spec, status: TaskStatus::Pending };
        self.tasks.push(task);
        id
    }

    /// Position of the task with id `id`.
    pub fn find(&self, id: TaskId) -> (r: Option<usize>)
        ensures
            r matches Some(i) ==> i < self.tasks@.len() && self.tasks@[i as int].id == id,
            r matches Some(i) ==> (self.wf() ==> task_pos(self.tasks@, id) == i),
            r is None ==> !has_task(self.tasks@, id),
    {
        let mut i: usize = 0;
        while i < self.tasks.len()
            invariant
                i <= self.tasks@.len(),
                forall|j: int| 0 <= j < i ==> self.tasks@[j].id != id,
            decreases self.tasks@.len() - i,
        {
            if self.tasks[i].id.0 == id.0 {
                proof {
                    if self.wf() {
                        let k = task_pos(self.tasks@, id);
                        assert(self.tasks@[i as int].id == id);
                        assert(0 <= k < self.tasks@.len() && self.tasks@[k].id == id);
                        if k != i {
                            assert(self.tasks@[k].id != self.tasks@[i as int].id);
                        }
                    }
                }
                return Some(i);
            }
            i = i + 1;
        }
        None
    }

    /// The task with id `id`.
    pub fn get(&self, id: TaskId) -> (r: Option<&Task>)
        ensures
            r matches Some(t) ==> has_task(self.tasks@, id) && t.id == id && self.tasks@.contains(*t),
            r is None ==> !has_task(self.tasks@, id),
    {
        match self.find(id) {
            Some(i) => Some(&self.tasks[i]),
            None => None,
        }
    }

    /// Set the status of the task with id `id`.
    fn set_status(&mut self, id: TaskId, status: TaskStatus)
        requires
            old(self).wf(),
            has_task(old(self).tasks@, id),
        ensures
            final(self).wf(),
            final(self).index == old(self).index,
            final(self).tasks@.len() == old(self).tasks@.len(),
            forall|i: int|
                0 <= i < old(self).tasks@.len() ==> #[trigger] final(self).tasks@[i] == if old(self).tasks@[i].id == id {
                    Task { id, spec: old(self).tasks@[i].spec, status }
                } else {
                    old(self).tasks@[i]
                },
    {
        let i = self.find(id).unwrap();
        let ghost before = self.tasks@;
        let mut t = self.tasks.remove(i);
        t.status = status;
        self.tasks.insert(i, t);
        proof {
            assert forall|k: int| 0 <= k < before.len() implies #[trigger] self.tasks@[k] == if before[k].id == id {
                Task { id, spec: before[k].spec, status }
            } else {
                before[k]
            } by {
                if k != i {
                    assert(before[k].id != before[i as int].id);
                }
            }
            assert forall|a: int, b: int| 0 <= a < b < self.tasks@.len() implies self.tasks@[a].id != self.tasks@[b].id by {
                assert(before[a].id != before[b].id);
            }
            assert forall|a: int| 0 <= a < self.tasks@.len() implies self.index.has(#[trigger] self.tasks@[a].id) by {
                assert(self.index.has(before[a].id));
            }
        }
    }

    /// Move a task to the assigned state.
    pub fn set_assigned(&mut self, id: TaskId, pawn_id: PawnId)
        requires
            old(self).wf(),
            has_task(old(self).tasks@, id),
        ensures
            final(self).wf(),
            final(self).index == old(self).index,
            final(self).tasks@.len() == old(self).tasks@.len(),
            forall|i: int|
                0 <= i < old(self).tasks@.len() ==> #[trigger] final(self).tasks@[i] == if old(self).tasks@[i].id == id {
                    Task { id, spec: old(self).tasks@[i].spec, status: TaskStatus::Assigned(pawn_id) }
                } else {
                    old(self).tasks@[i]
                },
    {
        self.set_status(id, TaskStatus::Assigned(pawn_id));
    }

    /// Move an assigned task back to the pending state.
    pub fn return_to_pending(&mut self, id: TaskId)
        requires
            old(self).wf(),
            has_task(old(self).tasks@, id),
        ensures
            final(self).wf(),
            final(self).index == old(self).index,
            final(self).tasks@.len() == old(self).tasks@.len(),
            forall|i: int|
                0 <= i < old(self).tasks@.len() ==> #[trigger] final(self).tasks@[i] == if old(self).tasks@[i].id == id {
                    Task { id, spec: old(self).tasks@[i].spec, status: TaskStatus::Pending }
                } else {
                    old(self).tasks@[i]
                },
    {
        self.set_status(id, TaskStatus::Pending);
    }

    /// Mark a task as done.
    pub fn mark_done(&mut self, id: TaskId)
        requires
            old(self).wf(),
            has_task(old(self).tasks@, id),
        ensures
            final(self).wf(),
            final(self).index == old(self).index,
            final(self).tasks@.len() == old(self).tasks@.len(),
            forall|i: int|
                0 <= i < old(self).tasks@.len() ==> #[trigger] final(self).tasks@[i] == if old(self).tasks@[i].id == id {
                    Task { id, spec: old(self).tasks@[i].spec, status: TaskStatus::Done }
                } else {
                    old(self).tasks@[i]
                },
    {
        self.set_status(id, TaskStatus::Done);
    }

    /// Positions of the pending tasks of kind `kind`, in board order.
    pub fn pending_tasks_by_kind(&self, kind: TaskSpecKind) -> (r: Vec<usize>)
        ensures
            forall|k: int| 0 <= k < r@.len() ==> r@[k] < self.tasks@.len(),
            r@.map_values(|i: usize| self.tasks@[i as int].id) == ids_where(
                self.tasks@,
                |t: Task| t.status == TaskStatus::Pending && t.spec.kind_of() == kind,
            ),
    {
        let ghost f = |t: Task| t.status == TaskStatus::Pending && t.spec.kind_of() == kind;
        let mut out: Vec<usize> = Vec::new();
        let mut i: usize = 0;
        while i < self.tasks.len()
            invariant
                i <= self.tasks@.len(),
                forall|k: int| 0 <= k < out@.len() ==> out@[k] < i,
                f == (|t: Task| t.status == TaskStatus::Pending && t.spec.kind_of() == kind),
                out@.map_values(|j: usize| self.tasks@[j as int].id) == ids_where(self.tasks@.take(i as int), f),
            decreases self.tasks@.len() - i,
        {
            assert(self.tasks@.take(i as int + 1).drop_last() =~= self.tasks@.take(i as int));
            assert(self.tasks@.take(i as int + 1).last() == self.tasks@[i as int]);
            let ghost before = out@;
            let keep = self.tasks[i].status == TaskStatus::Pending && self.tasks[i].spec.kind() == kind;
            assert(keep == f(self.tasks@[i as int]));
            if keep {
                out.push(i);
                assert(out@.map_values(|j: usize| self.tasks@[j as int].id) =~= before.map_values(|j: usize| self.tasks@[j as int].id).push(self.tasks@[i as int].id));
            }
            i = i + 1;
        }
        assert(self.tasks@.take(self.tasks@.len() as int) =~= self.tasks@);
        out
    }

    /// Ids of the tasks with status `status`, in board order.
    pub fn tasks_by_status(&self, status: TaskStatus) -> (r: Vec<TaskId>)
        ensures
            r@ == ids_where(self.tasks@, |t: Task| t.status == status),
    {
        let ghost f = |t: Task| t.status == status;
        let mut out: Vec<TaskId> = Vec::new();
        let mut i: usize = 0;
        while i < self.tasks.len()
            invariant
                i <= self.tasks@.len(),
                out@ == ids_where(self.tasks@.take(i as int), f),
                f == (|t: Task| t.status == status),
            decreases self.tasks@.len() - i,
        {
            assert(self.tasks@.take(i as int + 1).drop_last() =~= self.tasks@.take(i as int));
            assert(self.tasks@.take(i as int + 1).last() == self.tasks@[i as int]);
            let keep = self.tasks[i].status == status;
            assert(keep == f(self.tasks@[i as int]));
            if keep {
                out.push(self.tasks[i].id);
            }
            i = i + 1;
        }
        assert(self.tasks@.take(self.tasks@.len() as int) =~= self.tasks@);
        out
    }
}

} // verus!
