//! Snapshots of the world: its pawns, items, fixtures and tasks, each list
//! sorted by id, and loading a snapshot back into a world.
use vstd::prelude::*;
use crate::components::{Fixture, Inventory, Item, ItemRelation, Pawn};
use crate::grid::TileId;
use crate::ids::{Entity, FixtureId, IdIndex, ItemId, PawnId, SimId, TaskId};
use crate::playback::Tick;
use crate::tasks::{JobKind, WorkPriority};
use crate::text::{nat_decimal, wrapped_number};
use crate::world::{FixtureEntity, ItemEntity, PawnEntity, SimWorld, has_fixture, has_item, has_pawn};

verus! {

broadcast use vstd::seq_lib::group_to_multiset_ensures;

/// A pawn and its tile.
#[derive(Debug, Clone, PartialEq, Eq)]
pub struct PawnEntry {
    pub pawn: Pawn,
    pub pos: TileId,
}

/// An item and its tile.
#[derive(Debug, Clone, PartialEq, Eq)]
pub struct ItemEntry {
    pub item: Item,
    pub pos: TileId,
}

/// A fixture and its tile.
#[derive(Debug, Clone, PartialEq, Eq)]
pub struct FixtureEntry {
    pub fixture: Fixture,
    pub pos: TileId,
}

/// A task, by id.
#[derive(Debug, Clone, Copy, PartialEq, Eq, Structural)]
pub struct TaskEntry {
    pub task: TaskId,
}

/// The state of the world at a tick.
#[derive(Debug, Clone, PartialEq, Eq)]
pub struct WorldSnapshot {
    pub tick: i32,
    pub scenario_seed: Option<u64>,
    pub pawns: Vec<PawnEntry>,
    pub items: Vec<ItemEntry>,
    pub fixtures: Vec<FixtureEntry>,
    pub tasks: Vec<TaskEntry>,
}

/// Entries that a snapshot orders by an id.
pub trait Keyed: Sized {
    /// The id the entry is ordered by.
    spec fn key_of(&self) -> u64;

    fn key(&self) -> (r: u64)
        ensures
            r == self.key_of(),
    ;
}

impl Keyed for PawnEntry {
    open spec fn key_of(&self) -> u64 {
        self.pawn.id.0
    }

    fn key(&self) -> (r: u64) {
        self.pawn.id.0
    }
}

impl Keyed for ItemEntry {
    open spec fn key_of(&self) -> u64 {
        self.item.id.0
    }

    fn key(&self) -> (r: u64) {
        self.item.id.0
    }
}

impl Keyed for FixtureEntry {
    open spec fn key_of(&self) -> u64 {
        self.fixture.id.0
    }

    fn key(&self) -> (r: u64) {
        self.fixture.id.0
    }
}

impl Keyed for TaskEntry {
    open spec fn key_of(&self) -> u64 {
        self.task.0
    }

    fn key(&self) -> (r: u64) {
        self.task.0
    }
}

/// The entries of `s` are in order of their ids.
pub open spec fn sorted_by_key<T: Keyed>(s: Seq<T>) -> bool {
    forall|a: int, b: int| 0 <= a <= b < s.len() ==> s[a].key_of() <= s[b].key_of()
}

/// Entries of `s` with equal keys come in the order of their places `p` in the
/// sequence they were taken from.
pub open spec fn stable<T: Keyed>(s: Seq<T>, p: Seq<int>) -> bool {
    forall|a: int, b: int| 0 <= a < b < s.len() && s[a].key_of() == s[b].key_of() ==> #[trigger] p[a] < #[trigger] p[b]
}

/// `p` is a permutation of `0..n`.
pub open spec fn is_perm(p: Seq<int>, n: int) -> bool {
    &&& p.len() == n
    &&& forall|i: int| 0 <= i < n ==> 0 <= #[trigger] p[i] < n
    &&& forall|a: int, b: int| 0 <= a < b < n ==> #[trigger] p[a] != #[trigger] p[b]
}

/// Sort entries by id, keeping entries with the same id in their order.
pub fn sort_by_id<T: Keyed>(v: Vec<T>) -> (r: Vec<T>)
    ensures
        sorted_by_key(r@),
        r@.to_multiset() == v@.to_multiset(),
        r@.len() == v@.len(),
        exists|p: Seq<int>|
            is_perm(p, v@.len() as int) && (forall|i: int| 0 <= i < r@.len() ==> #[trigger] r@[i] == v@[p[i]]) && stable(
                r@,
                p,
            ),
{
    let ghost orig = v@;
    let mut input = v;
    let mut out: Vec<T> = Vec::new();
    let ghost mut perm: Seq<int> = Seq::empty();
    assert(orig.skip(0) =~= orig);
    while input.len() > 0
        invariant
            sorted_by_key(out@),
            out@.to_multiset().add(input@.to_multiset()) == orig.to_multiset(),
            out@.len() + input@.len() == orig.len(),
            input@ == orig.skip(out@.len() as int),
            is_perm(perm, out@.len() as int),
            forall|i: int| 0 <= i < out@.len() ==> #[trigger] out@[i] == orig[perm[i]],
            stable(out@, perm),
        decreases input@.len(),
    {
        let ghost k = out@.len() as int;
        let ghost perm0 = perm;
        let ghost in0 = input@;
        let ghost out0 = out@;
        let x = input.remove(0);
        let kx = x.key();
        let mut j: usize = 0;
        while j < out.len() && out[j].key() <= kx
            invariant
                j <= out@.len(),
                out@ == out0,
                forall|a: int| 0 <= a < j ==> out@[a].key_of() <= kx,
            decreases out@.len() - j,
        {
            j = j + 1;
        }
        proof {
            vstd::seq_lib::to_multiset_remove(in0, 0);
            vstd::seq_lib::to_multiset_insert(out0, j as int, x);
            assert(input@.to_multiset() == in0.to_multiset().remove(x));
            assert(out0.insert(j as int, x).to_multiset() == out0.to_multiset().insert(x));
            assert(in0.to_multiset().count(x) >= 1) by {
                assert(in0[0] == x);
                assert(in0.contains(x));
            }
            assert(out0.to_multiset().insert(x).add(in0.to_multiset().remove(x)) =~= out0.to_multiset().add(
                in0.to_multiset(),
            ));
        }
        out.insert(j, x);
        proof {
            perm = perm0.insert(j as int, k);
            assert(x == orig[k]);
            assert(input@ =~= orig.skip(k + 1));
            assert forall|i: int| 0 <= i < perm.len() implies 0 <= #[trigger] perm[i] < k + 1 by {
                if i < j {
                    assert(perm[i] == perm0[i]);
                } else if i > j {
                    assert(perm[i] == perm0[i - 1]);
                }
            }
            assert forall|a: int, b: int| 0 <= a < b < perm.len() implies #[trigger] perm[a] != #[trigger] perm[b] by {
                if a < j && b < j {
                    assert(perm[a] == perm0[a] && perm[b] == perm0[b]);
                } else if a < j && b == j {
                    assert(perm[a] == perm0[a]);
                } else if a < j && b > j {
                    assert(perm[a] == perm0[a] && perm[b] == perm0[b - 1]);
                } else if a == j {
                    assert(perm[b] == perm0[b - 1]);
                } else {
                    assert(perm[a] == perm0[a - 1] && perm[b] == perm0[b - 1]);
                }
            }
            assert forall|i: int| 0 <= i < out@.len() implies #[trigger] out@[i] == orig[perm[i]] by {
                if i < j {
                    assert(out@[i] == out0[i]);
                    assert(perm[i] == perm0[i]);
                } else if i > j {
                    assert(out@[i] == out0[i - 1]);
                    assert(perm[i] == perm0[i - 1]);
                }
            }
            assert forall|a: int, b: int|
                0 <= a < b < out@.len() && out@[a].key_of() == out@[b].key_of() implies #[trigger] perm[a]
                < #[trigger] perm[b] by {
                if j < out0.len() {
                    assert(out0[j as int].key_of() > kx);
                }
                if a < j && b < j {
                    assert(out@[a] == out0[a] && out@[b] == out0[b]);
                    assert(perm[a] == perm0[a] && perm[b] == perm0[b]);
                } else if a < j && b == j {
                    assert(perm[a] == perm0[a]);
                    assert(0 <= perm0[a] < k);
                } else if a == j {
                    assert(out@[b] == out0[b - 1]);
                    assert(out0[j as int].key_of() <= out0[b - 1].key_of());
                } else if a < j {
                    assert(out@[a] == out0[a] && out@[b] == out0[b - 1]);
                    assert(perm[a] == perm0[a] && perm[b] == perm0[b - 1]);
                } else {
                    assert(out@[a] == out0[a - 1] && out@[b] == out0[b - 1]);
                    assert(perm[a] == perm0[a - 1] && perm[b] == perm0[b - 1]);
                }
            }
            assert forall|a: int, b: int| 0 <= a <= b < out@.len() implies out@[a].key_of()
                <= out@[b].key_of() by {
                if j < out0.len() {
                    assert(out0[j as int].key_of() > kx);
                }
                if a < j && b > j {
                    assert(out@[a] == out0[a]);
                    assert(out@[b] == out0[b - 1]);
                } else if a < j && b == j {
                } else if a == j && b > j {
                    assert(out@[b] == out0[b - 1]);
                    assert(out0[j as int].key_of() <= out0[b - 1].key_of());
                } else if a > j {
                    assert(out@[a] == out0[a - 1]);
                    assert(out@[b] == out0[b - 1]);
                } else if b < j {
                    assert(out@[a] == out0[a]);
                    assert(out@[b] == out0[b]);
                }
            }
        }
    }
    assert(input@.to_multiset() =~= vstd::multiset::Multiset::<T>::empty());
    assert(out@.to_multiset().add(vstd::multiset::Multiset::<T>::empty()) =~= out@.to_multiset());
    assert(forall|i: int| 0 <= i < out@.len() ==> #[trigger] out@[i] == orig[perm[i]]);
    out
}


/// The entry of a pawn and its tile.
pub open spec fn pawn_entry(p: (Pawn, TileId)) -> PawnEntry {
    PawnEntry { pawn: p.0, pos: p.1 }
}

/// The entry of an item and its tile.
pub open spec fn item_entry(p: (Item, TileId)) -> ItemEntry {
    ItemEntry { item: p.0, pos: p.1 }
}

/// The entry of a fixture and its tile.
pub open spec fn fixture_entry(p: (Fixture, TileId)) -> FixtureEntry {
    FixtureEntry { fixture: p.0, pos: p.1 }
}

/// The entry of a task.
pub open spec fn task_entry(t: TaskId) -> TaskEntry {
    TaskEntry { task: t }
}

fn pawn_entries(v: Vec<(Pawn, TileId)>) -> (r: Vec<PawnEntry>)
    ensures
        r@ == v@.map_values(|p: (Pawn, TileId)| pawn_entry(p)),
{
    let ghost orig = v@;
    let mut input = v;
    let mut out: Vec<PawnEntry> = Vec::new();
    while input.len() > 0
        invariant
            out@ + input@.map_values(|p: (Pawn, TileId)| pawn_entry(p)) == orig.map_values(|p: (Pawn, TileId)| pawn_entry(p)),
        decreases input@.len(),
    {
        let ghost in0 = input@;
        let ghost out0 = out@;
        let (pawn, pos) = input.remove(0);
        out.push(PawnEntry { pawn, pos });
        proof {
            assert(in0.map_values(|p: (Pawn, TileId)| pawn_entry(p)) =~= seq![pawn_entry(in0[0])]
                + input@.map_values(|p: (Pawn, TileId)| pawn_entry(p)));
            assert(out@ + input@.map_values(|p: (Pawn, TileId)| pawn_entry(p)) =~= out0 + in0.map_values(
                |p: (Pawn, TileId)| pawn_entry(p),
            ));
        }
    }
    assert(out@ + input@.map_values(|p: (Pawn, TileId)| pawn_entry(p)) =~= out@);
    out
}

fn item_entries(v: Vec<(Item, TileId)>) -> (r: Vec<ItemEntry>)
    ensures
        r@ == v@.map_values(|p: (Item, TileId)| item_entry(p)),
{
    let ghost orig = v@;
    let mut input = v;
    let mut out: Vec<ItemEntry> = Vec::new();
    while input.len() > 0
        invariant
            out@ + input@.map_values(|p: (Item, TileId)| item_entry(p)) == orig.map_values(|p: (Item, TileId)| item_entry(p)),
        decreases input@.len(),
    {
        let ghost in0 = input@;
        let ghost out0 = out@;
        let (item, pos) = input.remove(0);
        out.push(ItemEntry { item, pos });
        proof {
            assert(in0.map_values(|p: (Item, TileId)| item_entry(p)) =~= seq![item_entry(in0[0])]
                + input@.map_values(|p: (Item, TileId)| item_entry(p)));
            assert(out@ + input@.map_values(|p: (Item, TileId)| item_entry(p)) =~= out0 + in0.map_values(
                |p: (Item, TileId)| item_entry(p),
            ));
        }
    }
    assert(out@ + input@.map_values(|p: (Item, TileId)| item_entry(p)) =~= out@);
    out
}

fn fixture_entries(v: Vec<(Fixture, TileId)>) -> (r: Vec<FixtureEntry>)
    ensures
        r@ == v@.map_values(|p: (Fixture, TileId)| fixture_entry(p)),
{
    let ghost orig = v@;
    let mut input = v;
    let mut out: Vec<FixtureEntry> = Vec::new();
    while input.len() > 0
        invariant
            out@ + input@.map_values(|p: (Fixture, TileId)| fixture_entry(p)) == orig.map_values(
                |p: (Fixture, TileId)| fixture_entry(p),
            ),
        decreases input@.len(),
    {
        let ghost in0 = input@;
        let ghost out0 = out@;
        let (fixture, pos) = input.remove(0);
        out.push(FixtureEntry { fixture, pos });
        proof {
            assert(in0.map_values(|p: (Fixture, TileId)| fixture_entry(p)) =~= seq![fixture_entry(in0[0])]
                + input@.map_values(|p: (Fixture, TileId)| fixture_entry(p)));
            assert(out@ + input@.map_values(|p: (Fixture, TileId)| fixture_entry(p)) =~= out0 + in0.map_values(
                |p: (Fixture, TileId)| fixture_entry(p),
            ));
        }
    }
    assert(out@ + input@.map_values(|p: (Fixture, TileId)| fixture_entry(p)) =~= out@);
    out
}

fn task_entries(v: &Vec<TaskId>) -> (r: Vec<TaskEntry>)
    ensures
        r@ == v@.map_values(|t: TaskId| task_entry(t)),
{
    let mut out: Vec<TaskEntry> = Vec::new();
    let mut i: usize = 0;
    while i < v.len()
        invariant
            i <= v@.len(),
            out@ == v@.take(i as int).map_values(|t: TaskId| task_entry(t)),
        decreases v@.len() - i,
    {
        out.push(TaskEntry { task: v[i] });
        proof {
            assert(v@.take(i + 1).map_values(|t: TaskId| task_entry(t)) =~= v@.take(i as int).map_values(
                |t: TaskId| task_entry(t),
            ).push(task_entry(v@[i as int])));
        }
        i = i + 1;
    }
    assert(v@.take(v@.len() as int) =~= v@);
    out
}

/// `s` is a reordering of `t` that gives `t[p[i]]` the place `i`.
pub open spec fn reorders<A>(s: Seq<A>, t: Seq<A>) -> bool {
    exists|p: Seq<int>| is_perm(p, t.len() as int) && s.len() == t.len() && forall|i: int|
        0 <= i < s.len() ==> #[trigger] s[i] == t[p[i]]
}

/// `snap` is the snapshot at `tick` of the given pawns, items, fixtures and
/// tasks: each list reordered by id.
pub open spec fn snapshot_built(
    snap: WorldSnapshot,
    tick: Tick,
    scenario_seed: Option<u64>,
    pawns: Seq<(Pawn, TileId)>,
    items: Seq<(Item, TileId)>,
    fixtures: Seq<(Fixture, TileId)>,
    tasks: Seq<TaskId>,
) -> bool {
    &&& snap.tick == tick.0
    &&& snap.scenario_seed == scenario_seed
    &&& sorted_by_key(snap.pawns@)
    &&& sorted_by_key(snap.items@)
    &&& sorted_by_key(snap.fixtures@)
    &&& sorted_by_key(snap.tasks@)
    &&& reorders(snap.pawns@, pawns.map_values(|p: (Pawn, TileId)| pawn_entry(p)))
    &&& reorders(snap.items@, items.map_values(|p: (Item, TileId)| item_entry(p)))
    &&& reorders(snap.fixtures@, fixtures.map_values(|p: (Fixture, TileId)| fixture_entry(p)))
    &&& reorders(snap.tasks@, tasks.map_values(|t: TaskId| task_entry(t)))
}

/// A snapshot of the world at `tick`: the given pawns, items, fixtures and
/// tasks, each list sorted by id.
pub fn build_world_snapshot(
    tick: Tick,
    scenario_seed: Option<u64>,
    pawns: Vec<(Pawn, TileId)>,
    items: Vec<(Item, TileId)>,
    fixtures: Vec<(Fixture, TileId)>,
    tasks: &Vec<TaskId>,
) -> (snap: WorldSnapshot)
    ensures
        snapshot_built(snap, tick, scenario_seed, pawns@, items@, fixtures@, tasks@),
{
    let p = sort_by_id(pawn_entries(pawns));
    let i = sort_by_id(item_entries(items));
    let f = sort_by_id(fixture_entries(fixtures));
    let t = sort_by_id(task_entries(tasks));
    WorldSnapshot { tick: tick.0, scenario_seed, pawns: p, items: i, fixtures: f, tasks: t }
}


// ---- loading a snapshot ----

/// The ids `keys` are distinct, and none is attached to an entity in an
/// index holding `m`.
pub open spec fn ids_fresh(keys: Seq<u64>, m: Map<u64, Option<Entity>>) -> bool {
    &&& forall|a: int, b: int| 0 <= a < b < keys.len() ==> keys[a] != keys[b]
    &&& forall|a: int| 0 <= a < keys.len() ==> !(m.contains_key(keys[a]) && m[keys[a]] is Some)
}

/// The ids of pawn entries, in order.
pub open spec fn pawn_keys(s: Seq<PawnEntry>) -> Seq<u64> {
    Seq::new(s.len(), |i: int| s[i].pawn.id.0)
}

/// The ids of item entries, in order.
pub open spec fn item_keys(s: Seq<ItemEntry>) -> Seq<u64> {
    Seq::new(s.len(), |i: int| s[i].item.id.0)
}

/// The ids of fixture entries, in order.
pub open spec fn fixture_keys(s: Seq<FixtureEntry>) -> Seq<u64> {
    Seq::new(s.len(), |i: int| s[i].fixture.id.0)
}

/// `pe` is the pawn record restored from entry `en` under entity `e`, with no
/// job and no work priorities.
pub open spec fn pawn_restored(pe: PawnEntity, en: PawnEntry, e: Entity) -> bool {
    &&& pe.entity == e
    &&& pe.name@ == "Pawn"@ + "#"@ + nat_decimal(en.pawn.id.0 as nat)
    &&& pe.pawn.id == en.pawn.id
    &&& pe.pawn.inventory@ == en.pawn.inventory@
    &&& pe.pawn.sleep == en.pawn.sleep
    &&& pe.pawn.hunger == en.pawn.hunger
    &&& pe.pos == en.pos
    &&& pe.job.kind == JobKind::Idle
    &&& pe.job.plan is None
    &&& pe.job.retries == 0
    &&& pe.priorities.0@.len() == 0
}

/// `ie` is the item record restored from entry `en` under entity `e`, lying
/// on the entry's tile.
pub open spec fn item_restored(ie: ItemEntity, en: ItemEntry, e: Entity) -> bool {
    &&& ie.entity == e
    &&& ie.name@ == "Item"@ + "#"@ + nat_decimal(en.item.id.0 as nat)
    &&& ie.item == en.item
    &&& ie.relation == ItemRelation::OnGround(en.pos)
}

/// `fe` is the fixture record restored from entry `en` under entity `e`.
pub open spec fn fixture_restored(fe: FixtureEntity, en: FixtureEntry, e: Entity) -> bool {
    &&& fe.entity == e
    &&& fe.name@ == "Fixture"@ + "#"@ + nat_decimal(en.fixture.id.0 as nat)
    &&& fe.fixture.id == en.fixture.id
    &&& fe.fixture.kind == en.fixture.kind
    &&& fe.fixture.inventory@ == en.fixture.inventory@
    &&& fe.pos == en.pos
    &&& fe.harvestable is None
    &&& fe.site is None
}

/// "IdIndex already contains id: {name}(k) entity: Entity(n)".
pub open spec fn attached_msg(name: Seq<char>, k: u64, e: Entity) -> Seq<char> {
    "IdIndex already contains id: "@ + wrapped_number(name, k as nat) + " entity: "@ + wrapped_number(
        "Entity"@,
        e.0 as nat,
    )
}

fn attached_error(name: &str, k: u64, e: Entity) -> (r: String)
    ensures
        r@ == attached_msg(name@, k, e),
{
    let mut m = String::from_str("IdIndex already contains id: ");
    let a = crate::text::wrapped_number_text(name, k);
    m.append(a.as_str());
    m.append(" entity: ");
    let b = crate::text::wrapped_number_text("Entity", e.0);
    m.append(b.as_str());
    m
}

/// Restore the pawns of `entries` into a world that has no pawns yet.
#[verifier::loop_isolation(false)]
fn restore_pawns(world: &mut SimWorld, entries: &Vec<PawnEntry>) -> (r: Result<(), String>)
    requires
        old(world).wf(),
        old(world).pawns@.len() == 0,
    ensures
        final(world).wf(),
        final(world).items@ == old(world).items@,
        final(world).fixtures@ == old(world).fixtures@,
        final(world).item_index == old(world).item_index,
        final(world).fixture_index == old(world).fixture_index,
        final(world).item_tiles == old(world).item_tiles,
        final(world).fixture_tiles == old(world).fixture_tiles,
        final(world).grid == old(world).grid,
        final(world).task_board == old(world).task_board,
        final(world).scenario_seed == old(world).scenario_seed,
        ids_fresh(pawn_keys(entries@), old(world).pawn_index.view()) && old(world).next_entity + entries@.len()
            < u64::MAX ==> r is Ok,
        r is Ok ==> {
            &&& final(world).next_entity == old(world).next_entity + entries@.len()
            &&& final(world).pawns@.len() == entries@.len()
            &&& forall|q: int|
                #![trigger entries@[q]]
                0 <= q < entries@.len() ==> pawn_restored(
                    final(world).pawns@[q],
                    entries@[q],
                    Entity((old(world).next_entity + q) as u64),
                ) && final(world).pawn_index.view()[entries@[q].pawn.id.0] == Some(
                    Entity((old(world).next_entity + q) as u64),
                )
        },
{
    let ghost w0 = *world;
    let ghost keys = pawn_keys(entries@);
    let mut k: usize = 0;
    while k < entries.len()
        invariant
            k <= entries@.len(),
            world.wf(),
            keys == pawn_keys(entries@),
            world.items@ == w0.items@,
            world.fixtures@ == w0.fixtures@,
            world.item_index == w0.item_index,
            world.fixture_index == w0.fixture_index,
            world.item_tiles == w0.item_tiles,
            world.fixture_tiles == w0.fixture_tiles,
            world.grid == w0.grid,
            world.task_board == w0.task_board,
            world.scenario_seed == w0.scenario_seed,
            world.next_entity == w0.next_entity + k,
            world.pawns@.len() == k,
            forall|q: int|
                #![trigger entries@[q]]
                0 <= q < k ==> pawn_restored(world.pawns@[q], entries@[q], Entity((w0.next_entity + q) as u64))
                    && world.pawn_index.view().contains_key(entries@[q].pawn.id.0)
                    && world.pawn_index.view()[entries@[q].pawn.id.0] == Some(Entity((w0.next_entity + q) as u64)),
            forall|id: u64|
                !keys.take(k as int).contains(id) ==> (#[trigger] world.pawn_index.view().contains_key(id)
                    == w0.pawn_index.view().contains_key(id) && world.pawn_index.view()[id]
                    == w0.pawn_index.view()[id]),
        decreases entries@.len() - k,
    {
        let en = &entries[k];
        let id = en.pawn.id;
        let ghost ws = *world;
        proof {
            assert(keys.take(k + 1) =~= keys.take(k as int).push(id.0));
        }
        match world.pawn_index.lookup(&id) {
            Some(Some(e)) => {
                proof {
                    if !keys.take(k as int).contains(id.0) {
                        assert(keys[k as int] == id.0);
                    } else {
                        let q = choose|q: int| 0 <= q < k && keys.take(k as int)[q] == id.0;
                        assert(keys[q] == keys[k as int]);
                    }
                }
                return Err(attached_error("PawnId", id.0, e));
            },
            Some(None) => {},
            None => {
                let ghost wb = *world;
                world.pawn_index.register(id);
                proof {
                    assert forall|q: int| 0 <= q < world.pawns@.len() implies world.pawn_index.has(
                        #[trigger] world.pawns@[q].pawn.id,
                    ) by {
                        assert(wb.pawn_index.has(wb.pawns@[q].pawn.id));
                    }
                }
            },
        }
        if world.next_entity == u64::MAX {
            return Err(String::from_str("too many entities"));
        }
        proof {
            if has_pawn(world.pawns@, id) {
                let q = choose|q: int| 0 <= q < world.pawns@.len() && world.pawns@[q].pawn.id == id;
                assert(pawn_restored(world.pawns@[q], entries@[q], Entity((w0.next_entity + q) as u64)));
            }
        }
        let name = crate::world::name_with_id("Pawn", id.0);
        let pawn = Pawn { id, inventory: en.pawn.inventory.copy(), sleep: en.pawn.sleep, hunger: en.pawn.hunger };
        let ghost wb = *world;
        world.add_pawn(name, pawn, en.pos, WorkPriority(Vec::new()));
        proof {
            assert forall|q: int|
                #![trigger entries@[q]]
                0 <= q < k + 1 implies pawn_restored(world.pawns@[q], entries@[q], Entity((w0.next_entity + q) as u64))
                && world.pawn_index.view().contains_key(entries@[q].pawn.id.0)
                && world.pawn_index.view()[entries@[q].pawn.id.0] == Some(Entity((w0.next_entity + q) as u64)) by {
                if q < k {
                    assert(world.pawns@[q] == world.pawns@.drop_last()[q]);
                    assert(world.pawns@[q] == wb.pawns@[q]);
                    assert(entries@[q].pawn.id.0 != id.0) by {
                        if entries@[q].pawn.id.0 == id.0 {
                            assert(pawn_restored(wb.pawns@[q], entries@[q], Entity((w0.next_entity + q) as u64)));
                            assert(has_pawn(wb.pawns@, id));
                        }
                    }
                }
            }
            assert forall|x: u64|
                !keys.take(k + 1).contains(x) implies (#[trigger] world.pawn_index.view().contains_key(x)
                == w0.pawn_index.view().contains_key(x) && world.pawn_index.view()[x] == w0.pawn_index.view()[x]) by {
                assert(keys.take(k + 1)[k as int] == id.0);
                assert(x != id.0);
                assert(world.pawn_index.view().contains_key(x) == ws.pawn_index.view().contains_key(x));
                assert(world.pawn_index.view()[x] == ws.pawn_index.view()[x]);
                if keys.take(k as int).contains(x) {
                    let q = choose|q: int| 0 <= q < k && keys.take(k as int)[q] == x;
                    assert(keys.take(k + 1)[q] == x);
                }
            }
        }
        k = k + 1;
    }
    Ok(())
}

/// Restore the items of `entries`, each lying on its tile, into a world that
/// has no items yet.
#[verifier::loop_isolation(false)]
fn restore_items(world: &mut SimWorld, entries: &Vec<ItemEntry>) -> (r: Result<(), String>)
    requires
        old(world).wf(),
        old(world).items@.len() == 0,
    ensures
        final(world).wf(),
        final(world).pawns@ == old(world).pawns@,
        final(world).fixtures@ == old(world).fixtures@,
        final(world).pawn_index == old(world).pawn_index,
        final(world).fixture_index == old(world).fixture_index,
        final(world).pawn_tiles == old(world).pawn_tiles,
        final(world).item_tiles == old(world).item_tiles,
        final(world).fixture_tiles == old(world).fixture_tiles,
        final(world).grid == old(world).grid,
        final(world).task_board == old(world).task_board,
        final(world).scenario_seed == old(world).scenario_seed,
        ids_fresh(item_keys(entries@), old(world).item_index.view()) && old(world).next_entity + entries@.len()
            < u64::MAX ==> r is Ok,
        r is Ok ==> {
            &&& final(world).next_entity == old(world).next_entity + entries@.len()
            &&& final(world).items@.len() == entries@.len()
            &&& forall|q: int|
                #![trigger entries@[q]]
                0 <= q < entries@.len() ==> item_restored(
                    final(world).items@[q],
                    entries@[q],
                    Entity((old(world).next_entity + q) as u64),
                ) && final(world).item_index.view()[entries@[q].item.id.0] == Some(
                    Entity((old(world).next_entity + q) as u64),
                )
        },
{
    let ghost w0 = *world;
    let ghost keys = item_keys(entries@);
    let mut k: usize = 0;
    while k < entries.len()
        invariant
            k <= entries@.len(),
            world.wf(),
            keys == item_keys(entries@),
            world.pawns@ == w0.pawns@,
            world.fixtures@ == w0.fixtures@,
            world.pawn_index == w0.pawn_index,
            world.fixture_index == w0.fixture_index,
            world.pawn_tiles == w0.pawn_tiles,
            world.item_tiles == w0.item_tiles,
            world.fixture_tiles == w0.fixture_tiles,
            world.grid == w0.grid,
            world.task_board == w0.task_board,
            world.scenario_seed == w0.scenario_seed,
            world.next_entity == w0.next_entity + k,
            world.items@.len() == k,
            forall|q: int|
                #![trigger entries@[q]]
                0 <= q < k ==> item_restored(world.items@[q], entries@[q], Entity((w0.next_entity + q) as u64))
                    && world.item_index.view().contains_key(entries@[q].item.id.0)
                    && world.item_index.view()[entries@[q].item.id.0] == Some(Entity((w0.next_entity + q) as u64)),
            forall|id: u64|
                !keys.take(k as int).contains(id) ==> (#[trigger] world.item_index.view().contains_key(id)
                    == w0.item_index.view().contains_key(id) && world.item_index.view()[id]
                    == w0.item_index.view()[id]),
        decreases entries@.len() - k,
    {
        let en = &entries[k];
        let id = en.item.id;
        let ghost ws = *world;
        proof {
            assert(keys.take(k + 1) =~= keys.take(k as int).push(id.0));
        }
        match world.item_index.lookup(&id) {
            Some(Some(e)) => {
                proof {
                    if !keys.take(k as int).contains(id.0) {
                        assert(keys[k as int] == id.0);
                    } else {
                        let q = choose|q: int| 0 <= q < k && keys.take(k as int)[q] == id.0;
                        assert(keys[q] == keys[k as int]);
                    }
                }
                return Err(attached_error("ItemId", id.0, e));
            },
            Some(None) => {},
            None => {
                let ghost wb = *world;
                world.item_index.register(id);
                proof {
                    assert forall|q: int| 0 <= q < world.items@.len() implies world.item_index.has(
                        #[trigger] world.items@[q].item.id,
                    ) by {
                        assert(wb.item_index.has(wb.items@[q].item.id));
                    }
                }
            },
        }
        if world.next_entity == u64::MAX {
            return Err(String::from_str("too many entities"));
        }
        proof {
            if has_item(world.items@, id) {
                let q = choose|q: int| 0 <= q < world.items@.len() && world.items@[q].item.id == id;
                assert(item_restored(world.items@[q], entries@[q], Entity((w0.next_entity + q) as u64)));
            }
        }
        let name = crate::world::name_with_id("Item", id.0);
        let item = Item { id, kind: en.item.kind, qty: en.item.qty };
        let ghost wb = *world;
        world.add_item(name, item, ItemRelation::OnGround(en.pos));
        proof {
            assert forall|q: int|
                #![trigger entries@[q]]
                0 <= q < k + 1 implies item_restored(world.items@[q], entries@[q], Entity((w0.next_entity + q) as u64))
                && world.item_index.view().contains_key(entries@[q].item.id.0)
                && world.item_index.view()[entries@[q].item.id.0] == Some(Entity((w0.next_entity + q) as u64)) by {
                if q < k {
                    assert(world.items@[q] == world.items@.drop_last()[q]);
                    assert(world.items@[q] == wb.items@[q]);
                    assert(entries@[q].item.id.0 != id.0) by {
                        if entries@[q].item.id.0 == id.0 {
                            assert(item_restored(wb.items@[q], entries@[q], Entity((w0.next_entity + q) as u64)));
                            assert(has_item(wb.items@, id));
                        }
                    }
                }
            }
            assert forall|x: u64|
                !keys.take(k + 1).contains(x) implies (#[trigger] world.item_index.view().contains_key(x)
                == w0.item_index.view().contains_key(x) && world.item_index.view()[x] == w0.item_index.view()[x]) by {
                assert(keys.take(k + 1)[k as int] == id.0);
                assert(x != id.0);
                assert(world.item_index.view().contains_key(x) == ws.item_index.view().contains_key(x));
                assert(world.item_index.view()[x] == ws.item_index.view()[x]);
                if keys.take(k as int).contains(x) {
                    let q = choose|q: int| 0 <= q < k && keys.take(k as int)[q] == x;
                    assert(keys.take(k + 1)[q] == x);
                }
            }
        }
        k = k + 1;
    }
    Ok(())
}


/// Restore the fixtures of `entries` into a world that has no fixtures yet.
#[verifier::loop_isolation(false)]
fn restore_fixtures(world: &mut SimWorld, entries: &Vec<FixtureEntry>) -> (r: Result<(), String>)
    requires
        old(world).wf(),
        old(world).fixtures@.len() == 0,
    ensures
        final(world).wf(),
        final(world).pawns@ == old(world).pawns@,
        final(world).items@ == old(world).items@,
        final(world).pawn_index == old(world).pawn_index,
        final(world).item_index == old(world).item_index,
        final(world).pawn_tiles == old(world).pawn_tiles,
        final(world).item_tiles == old(world).item_tiles,
        final(world).grid == old(world).grid,
        final(world).task_board == old(world).task_board,
        final(world).scenario_seed == old(world).scenario_seed,
        ids_fresh(fixture_keys(entries@), old(world).fixture_index.view()) && old(world).next_entity + entries@.len()
            < u64::MAX ==> r is Ok,
        r is Ok ==> {
            &&& final(world).next_entity == old(world).next_entity + entries@.len()
            &&& final(world).fixtures@.len() == entries@.len()
            &&& forall|q: int|
                #![trigger entries@[q]]
                0 <= q < entries@.len() ==> fixture_restored(
                    final(world).fixtures@[q],
                    entries@[q],
                    Entity((old(world).next_entity + q) as u64),
                ) && final(world).fixture_index.view()[entries@[q].fixture.id.0] == Some(
                    Entity((old(world).next_entity + q) as u64),
                )
        },
{
    let ghost w0 = *world;
    let ghost keys = fixture_keys(entries@);
    let mut k: usize = 0;
    while k < entries.len()
        invariant
            k <= entries@.len(),
            world.wf(),
            keys == fixture_keys(entries@),
            world.pawns@ == w0.pawns@,
            world.items@ == w0.items@,
            world.pawn_index == w0.pawn_index,
            world.item_index == w0.item_index,
            world.pawn_tiles == w0.pawn_tiles,
            world.item_tiles == w0.item_tiles,
            world.grid == w0.grid,
            world.task_board == w0.task_board,
            world.scenario_seed == w0.scenario_seed,
            world.next_entity == w0.next_entity + k,
            world.fixtures@.len() == k,
            forall|q: int|
                #![trigger entries@[q]]
                0 <= q < k ==> fixture_restored(world.fixtures@[q], entries@[q], Entity((w0.next_entity + q) as u64))
                    && world.fixture_index.view().contains_key(entries@[q].fixture.id.0)
                    && world.fixture_index.view()[entries@[q].fixture.id.0] == Some(Entity((w0.next_entity + q) as u64)),
            forall|id: u64|
                !keys.take(k as int).contains(id) ==> (#[trigger] world.fixture_index.view().contains_key(id)
                    == w0.fixture_index.view().contains_key(id) && world.fixture_index.view()[id]
                    == w0.fixture_index.view()[id]),
        decreases entries@.len() - k,
    {
        let en = &entries[k];
        let id = en.fixture.id;
        let ghost ws = *world;
        proof {
            assert(keys.take(k + 1) =~= keys.take(k as int).push(id.0));
        }
        match world.fixture_index.lookup(&id) {
            Some(Some(e)) => {
                proof {
                    if !keys.take(k as int).contains(id.0) {
                        assert(keys[k as int] == id.0);
                    } else {
                        let q = choose|q: int| 0 <= q < k && keys.take(k as int)[q] == id.0;
                        assert(keys[q] == keys[k as int]);
                    }
                }
                return Err(attached_error("FixtureId", id.0, e));
            },
            Some(None) => {},
            None => {
                let ghost wb = *world;
                world.fixture_index.register(id);
                proof {
                    assert forall|q: int| 0 <= q < world.fixtures@.len() implies world.fixture_index.has(
                        #[trigger] world.fixtures@[q].fixture.id,
                    ) by {
                        assert(wb.fixture_index.has(wb.fixtures@[q].fixture.id));
                    }
                }
            },
        }
        if world.next_entity == u64::MAX {
            return Err(String::from_str("too many entities"));
        }
        proof {
            if has_fixture(world.fixtures@, id) {
                let q = choose|q: int| 0 <= q < world.fixtures@.len() && world.fixtures@[q].fixture.id == id;
                assert(fixture_restored(world.fixtures@[q], entries@[q], Entity((w0.next_entity + q) as u64)));
            }
        }
        let name = crate::world::name_with_id("Fixture", id.0);
        let fixture = Fixture { id, kind: en.fixture.kind, inventory: en.fixture.inventory.copy() };
        let ghost wb = *world;
        world.add_fixture(name, fixture, en.pos, None, None);
        proof {
            assert forall|q: int|
                #![trigger entries@[q]]
                0 <= q < k + 1 implies fixture_restored(world.fixtures@[q], entries@[q], Entity((w0.next_entity + q) as u64))
                && world.fixture_index.view().contains_key(entries@[q].fixture.id.0)
                && world.fixture_index.view()[entries@[q].fixture.id.0] == Some(Entity((w0.next_entity + q) as u64)) by {
                if q < k {
                    assert(world.fixtures@[q] == world.fixtures@.drop_last()[q]);
                    assert(world.fixtures@[q] == wb.fixtures@[q]);
                    assert(entries@[q].fixture.id.0 != id.0) by {
                        if entries@[q].fixture.id.0 == id.0 {
                            assert(fixture_restored(wb.fixtures@[q], entries@[q], Entity((w0.next_entity + q) as u64)));
                            assert(has_fixture(wb.fixtures@, id));
                        }
                    }
                }
            }
            assert forall|x: u64|
                !keys.take(k + 1).contains(x) implies (#[trigger] world.fixture_index.view().contains_key(x)
                == w0.fixture_index.view().contains_key(x) && world.fixture_index.view()[x] == w0.fixture_index.view()[x]) by {
                assert(keys.take(k + 1)[k as int] == id.0);
                assert(x != id.0);
                assert(world.fixture_index.view().contains_key(x) == ws.fixture_index.view().contains_key(x));
                assert(world.fixture_index.view()[x] == ws.fixture_index.view()[x]);
                if keys.take(k as int).contains(x) {
                    let q = choose|q: int| 0 <= q < k && keys.take(k as int)[q] == x;
                    assert(keys.take(k + 1)[q] == x);
                }
            }
        }
        k = k + 1;
    }
    Ok(())
}



/// `w` holds the entries of `snap` restored in order, pawns then items then
/// fixtures, under consecutive entities from `first`, each attached in its
/// index.
pub open spec fn snapshot_restored(w: SimWorld, snap: WorldSnapshot, first: int) -> bool {
    let np = snap.pawns@.len() as int;
    let ni = snap.items@.len() as int;
    &&& w.pawns@.len() == np
    &&& w.items@.len() == ni
    &&& w.fixtures@.len() == snap.fixtures@.len()
    &&& w.next_entity == first + np + ni + snap.fixtures@.len()
    &&& forall|q: int|
        #![trigger snap.pawns@[q]]
        0 <= q < np ==> pawn_restored(w.pawns@[q], snap.pawns@[q], Entity((first + q) as u64))
            && w.pawn_index.view()[snap.pawns@[q].pawn.id.0] == Some(Entity((first + q) as u64))
    &&& forall|q: int|
        #![trigger snap.items@[q]]
        0 <= q < ni ==> item_restored(w.items@[q], snap.items@[q], Entity((first + np + q) as u64))
            && w.item_index.view()[snap.items@[q].item.id.0] == Some(Entity((first + np + q) as u64))
    &&& forall|q: int|
        #![trigger snap.fixtures@[q]]
        0 <= q < snap.fixtures@.len() ==> fixture_restored(
            w.fixtures@[q],
            snap.fixtures@[q],
            Entity((first + np + ni + q) as u64),
        ) && w.fixture_index.view()[snap.fixtures@[q].fixture.id.0] == Some(Entity((first + np + ni + q) as u64))
}

/// Restore the pawns, items and fixtures of `snapshot` into a world that has
/// none yet, attaching each id in its index.
pub fn load_world_snapshot(world: &mut SimWorld, snapshot: &WorldSnapshot) -> (r: Result<(), String>)
    requires
        old(world).wf(),
        old(world).pawns@.len() == 0,
        old(world).items@.len() == 0,
        old(world).fixtures@.len() == 0,
    ensures
        final(world).wf(),
        final(world).grid == old(world).grid,
        final(world).task_board == old(world).task_board,
        final(world).scenario_seed == old(world).scenario_seed,
        ids_fresh(pawn_keys(snapshot.pawns@), old(world).pawn_index.view()) && ids_fresh(
            item_keys(snapshot.items@),
            old(world).item_index.view(),
        ) && ids_fresh(fixture_keys(snapshot.fixtures@), old(world).fixture_index.view()) && old(world).next_entity
            + snapshot.pawns@.len() + snapshot.items@.len() + snapshot.fixtures@.len() < u64::MAX ==> r is Ok,
        r is Ok ==> snapshot_restored(*final(world), *snapshot, old(world).next_entity as int),
{
    let ghost w0 = *world;
    match restore_pawns(world, &snapshot.pawns) {
        Ok(()) => {},
        Err(e) => return Err(e),
    }
    let ghost w1 = *world;
    match restore_items(world, &snapshot.items) {
        Ok(()) => {},
        Err(e) => return Err(e),
    }
    let ghost w2 = *world;
    match restore_fixtures(world, &snapshot.fixtures) {
        Ok(()) => {},
        Err(e) => return Err(e),
    }
    Ok(())
}

/// The ids of `keys` are distinct and none is in an index holding `m`.
pub open spec fn ids_new(keys: Seq<u64>, m: Map<u64, Option<Entity>>) -> bool {
    &&& forall|a: int, b: int| 0 <= a < b < keys.len() ==> keys[a] != keys[b]
    &&& forall|a: int| 0 <= a < keys.len() ==> !m.contains_key(keys[a])
}

/// Register the ids `keys` in `idx`; an id already there is refused.
fn register_all<T: SimId>(idx: &mut IdIndex<T>, keys: &Vec<u64>, name: &str) -> (r: Result<(), String>)
    ensures
        ids_new(keys@, old(idx).view()) ==> r is Ok,
        r is Ok ==> forall|k: u64| #[trigger] final(idx).view().contains_key(k) == (old(idx).view().contains_key(k)
            || keys@.contains(k)),
        r is Ok ==> forall|k: u64| old(idx).view().contains_key(k) ==> #[trigger] final(idx).view()[k] == old(idx).view()[k],
        r is Ok ==> forall|k: u64| !old(idx).view().contains_key(k) && keys@.contains(k) ==> #[trigger] final(idx).view()[k] is None,
        r matches Err(e) ==> e@.len() > 0,
{
    let mut i: usize = 0;
    let ghost m0 = idx.view();
    while i < keys.len()
        invariant
            i <= keys@.len(),
            m0 == old(idx).view(),
            ids_new(keys@, m0) ==> forall|a: int| i <= a < keys@.len() ==> !idx.view().contains_key(#[trigger] keys@[a]),
            forall|k: u64| #[trigger] idx.view().contains_key(k) == (m0.contains_key(k) || keys@.take(i as int).contains(k)),
            forall|k: u64| m0.contains_key(k) ==> #[trigger] idx.view()[k] == m0[k],
            forall|k: u64| !m0.contains_key(k) && keys@.take(i as int).contains(k) ==> #[trigger] idx.view()[k] is None,
        decreases keys@.len() - i,
    {
        let k = keys[i];
        if idx.contains_raw(k) {
            let mut e = String::from_str("IdIndex already contains id: ");
            let t = crate::text::wrapped_number_text(name, k);
            e.append(t.as_str());
            proof {
                crate::text::lemma_nat_decimal_len(k as nat);
            }
            return Err(e);
        }
        let id = T::from_u64(k);
        idx.register(id);
        proof {
            assert(keys@.take(i + 1) =~= keys@.take(i as int).push(k));
            assert forall|x: u64| #[trigger] idx.view().contains_key(x) == (m0.contains_key(x) || keys@.take(
                i + 1,
            ).contains(x)) by {
                if x == k {
                    assert(keys@.take(i + 1)[i as int] == k);
                } else if keys@.take(i + 1).contains(x) {
                    let j = choose|j: int| 0 <= j < i + 1 && #[trigger] keys@.take(i + 1)[j] == x;
                    assert(keys@.take(i as int)[j] == x);
                }
            }
            assert forall|x: u64| !m0.contains_key(x) && keys@.take(i + 1).contains(x) implies #[trigger] idx.view()[x] is None by {
                if x != k {
                    let j = choose|j: int| 0 <= j < i + 1 && #[trigger] keys@.take(i + 1)[j] == x;
                    assert(keys@.take(i as int)[j] == x);
                }
            }
            if ids_new(keys@, m0) {
                assert forall|a: int| i + 1 <= a < keys@.len() implies !idx.view().contains_key(#[trigger] keys@[a]) by {
                    assert(keys@[a] != keys@[i as int]);
                }
            }
        }
        i = i + 1;
    }
    assert(keys@.take(keys@.len() as int) =~= keys@);
    Ok(())
}


fn pawn_key_list(entries: &Vec<PawnEntry>) -> (r: Vec<u64>)
    ensures
        r@ == pawn_keys(entries@),
{
    let mut r: Vec<u64> = Vec::new();
    let mut i: usize = 0;
    while i < entries.len()
        invariant
            i <= entries@.len(),
            r@ == pawn_keys(entries@).take(i as int),
        decreases entries@.len() - i,
    {
        r.push(entries[i].pawn.id.0);
        proof {
            assert(pawn_keys(entries@).take(i + 1) =~= pawn_keys(entries@).take(i as int).push(entries@[i as int].pawn.id.0));
        }
        i = i + 1;
    }
    assert(pawn_keys(entries@).take(entries@.len() as int) =~= pawn_keys(entries@));
    r
}

fn item_key_list(entries: &Vec<ItemEntry>) -> (r: Vec<u64>)
    ensures
        r@ == item_keys(entries@),
{
    let mut r: Vec<u64> = Vec::new();
    let mut i: usize = 0;
    while i < entries.len()
        invariant
            i <= entries@.len(),
            r@ == item_keys(entries@).take(i as int),
        decreases entries@.len() - i,
    {
        r.push(entries[i].item.id.0);
        proof {
            assert(item_keys(entries@).take(i + 1) =~= item_keys(entries@).take(i as int).push(entries@[i as int].item.id.0));
        }
        i = i + 1;
    }
    assert(item_keys(entries@).take(entries@.len() as int) =~= item_keys(entries@));
    r
}

/// The seed a snapshot runs with: its own, else `fallback`.
pub open spec fn snapshot_seed(snap: WorldSnapshot, fallback: u64) -> u64 {
    match snap.scenario_seed {
        Some(s) => s,
        None => fallback,
    }
}

/// Start a world from `snapshot`: take its seed (else `fallback_seed`),
/// register its pawn ids and then its item ids, and restore its entities
/// into the world, which has none yet.
pub fn load_snapshot_into(world: &mut SimWorld, snapshot: &WorldSnapshot, fallback_seed: u64) -> (r: Result<(), String>)
    requires
        old(world).wf(),
        old(world).pawns@.len() == 0,
        old(world).items@.len() == 0,
        old(world).fixtures@.len() == 0,
    ensures
        final(world).wf(),
        final(world).scenario_seed == Some(snapshot_seed(*snapshot, fallback_seed)),
        final(world).grid == old(world).grid,
        final(world).task_board == old(world).task_board,
        ids_new(pawn_keys(snapshot.pawns@), old(world).pawn_index.view()) && ids_new(
            item_keys(snapshot.items@),
            old(world).item_index.view(),
        ) && ids_fresh(fixture_keys(snapshot.fixtures@), old(world).fixture_index.view()) && old(world).next_entity
            + snapshot.pawns@.len() + snapshot.items@.len() + snapshot.fixtures@.len() < u64::MAX ==> r is Ok,
        r is Ok ==> snapshot_restored(*final(world), *snapshot, old(world).next_entity as int),
{
    let seed = match snapshot.scenario_seed {
        Some(s) => s,
        None => fallback_seed,
    };
    world.scenario_seed = Some(seed);
    let pk = pawn_key_list(&snapshot.pawns);
    let ghost wp = *world;
    match register_all(&mut world.pawn_index, &pk, "PawnId") {
        Ok(()) => {},
        Err(e) => return Err(e),
    }
    proof {
        assert forall|q: int| 0 <= q < world.pawns@.len() implies world.pawn_index.has(#[trigger] world.pawns@[q].pawn.id) by {
        }
        if ids_new(pawn_keys(snapshot.pawns@), wp.pawn_index.view()) {
            assert forall|a: int| 0 <= a < pk@.len() implies !(world.pawn_index.view().contains_key(pk@[a])
                && world.pawn_index.view()[pk@[a]] is Some) by {
                assert(pk@.contains(pk@[a]));
            }
        }
    }
    let ik = item_key_list(&snapshot.items);
    let ghost wi = *world;
    match register_all(&mut world.item_index, &ik, "ItemId") {
        Ok(()) => {},
        Err(e) => return Err(e),
    }
    proof {
        assert forall|q: int| 0 <= q < world.items@.len() implies world.item_index.has(#[trigger] world.items@[q].item.id) by {
        }
        if ids_new(item_keys(snapshot.items@), wi.item_index.view()) {
            assert forall|a: int| 0 <= a < ik@.len() implies !(world.item_index.view().contains_key(ik@[a])
                && world.item_index.view()[ik@[a]] is Some) by {
                assert(ik@.contains(ik@[a]));
            }
        }
    }
    load_world_snapshot(world, snapshot)
}


/// The items of `items` that lie on the ground, with their tiles, in order.
pub open spec fn ground_parts(items: Seq<ItemEntity>) -> Seq<(Item, TileId)>
    decreases items.len(),
{
    if items.len() == 0 {
        Seq::empty()
    } else {
        let rest = ground_parts(items.drop_last());
        match items.last().relation {
            ItemRelation::OnGround(p) => rest.push((items.last().item, p)),
            _ => rest,
        }
    }
}

/// `pawns`, `items`, `fixtures` and `tasks` are what a snapshot of `world` is
/// made of (see `snapshot_parts`).
pub open spec fn parts_of(
    world: SimWorld,
    pawns: Seq<(Pawn, TileId)>,
    items: Seq<(Item, TileId)>,
    fixtures: Seq<(Fixture, TileId)>,
    tasks: Seq<TaskId>,
) -> bool {
    &&& pawns.len() == world.pawns@.len()
    &&& forall|i: int|
        #![trigger pawns[i]]
        0 <= i < pawns.len() ==> {
            &&& pawns[i].0.id == world.pawns@[i].pawn.id
            &&& pawns[i].0.inventory@ == world.pawns@[i].pawn.inventory@
            &&& pawns[i].0.sleep == world.pawns@[i].pawn.sleep
            &&& pawns[i].0.hunger == world.pawns@[i].pawn.hunger
            &&& pawns[i].1 == world.pawns@[i].pos
        }
    &&& items == ground_parts(world.items@)
    &&& fixtures.len() == world.fixtures@.len()
    &&& forall|i: int|
        #![trigger fixtures[i]]
        0 <= i < fixtures.len() ==> {
            &&& fixtures[i].0.id == world.fixtures@[i].fixture.id
            &&& fixtures[i].0.kind == world.fixtures@[i].fixture.kind
            &&& fixtures[i].0.inventory@ == world.fixtures@[i].fixture.inventory@
            &&& fixtures[i].1 == world.fixtures@[i].pos
        }
    &&& tasks.len() == world.task_board.tasks@.len()
    &&& forall|i: int| 0 <= i < tasks.len() ==> #[trigger] tasks[i] == world.task_board.tasks@[i].id
}

/// What a snapshot of `world` is made of: each pawn with its tile, each item
/// lying on the ground with its tile, each fixture with its tile, and the ids
/// of the tasks on the board, in the world's order.
pub fn snapshot_parts(world: &SimWorld) -> (r: (Vec<(Pawn, TileId)>, Vec<(Item, TileId)>, Vec<(Fixture, TileId)>, Vec<TaskId>))
    ensures
        parts_of(*world, r.0@, r.1@, r.2@, r.3@),
{
    let mut pawns: Vec<(Pawn, TileId)> = Vec::new();
    let mut i: usize = 0;
    while i < world.pawns.len()
        invariant
            i <= world.pawns@.len(),
            pawns@.len() == i,
            forall|j: int|
                #![trigger pawns@[j]]
                0 <= j < i ==> {
                    &&& pawns@[j].0.id == world.pawns@[j].pawn.id
                    &&& pawns@[j].0.inventory@ == world.pawns@[j].pawn.inventory@
                    &&& pawns@[j].0.sleep == world.pawns@[j].pawn.sleep
                    &&& pawns@[j].0.hunger == world.pawns@[j].pawn.hunger
                    &&& pawns@[j].1 == world.pawns@[j].pos
                },
        decreases world.pawns@.len() - i,
    {
        let pe = &world.pawns[i];
        let p = Pawn { id: pe.pawn.id, inventory: pe.pawn.inventory.copy(), sleep: pe.pawn.sleep, hunger: pe.pawn.hunger };
        pawns.push((p, pe.pos));
        i = i + 1;
    }
    let mut items: Vec<(Item, TileId)> = Vec::new();
    let mut i: usize = 0;
    while i < world.items.len()
        invariant
            i <= world.items@.len(),
            items@ == ground_parts(world.items@.take(i as int)),
        decreases world.items@.len() - i,
    {
        let ie = &world.items[i];
        proof {
            assert(world.items@.take(i + 1).drop_last() =~= world.items@.take(i as int));
        }
        match ie.relation {
            ItemRelation::OnGround(p) => {
                items.push((Item { id: ie.item.id, kind: ie.item.kind, qty: ie.item.qty }, p));
            },
            _ => {},
        }
        i = i + 1;
    }
    assert(world.items@.take(world.items@.len() as int) =~= world.items@);
    let mut fixtures: Vec<(Fixture, TileId)> = Vec::new();
    let mut i: usize = 0;
    while i < world.fixtures.len()
        invariant
            i <= world.fixtures@.len(),
            fixtures@.len() == i,
            forall|j: int|
                #![trigger fixtures@[j]]
                0 <= j < i ==> {
                    &&& fixtures@[j].0.id == world.fixtures@[j].fixture.id
                    &&& fixtures@[j].0.kind == world.fixtures@[j].fixture.kind
                    &&& fixtures@[j].0.inventory@ == world.fixtures@[j].fixture.inventory@
                    &&& fixtures@[j].1 == world.fixtures@[j].pos
                },
        decreases world.fixtures@.len() - i,
    {
        let fe = &world.fixtures[i];
        let f = Fixture { id: fe.fixture.id, kind: fe.fixture.kind, inventory: fe.fixture.inventory.copy() };
        fixtures.push((f, fe.pos));
        i = i + 1;
    }
    let mut tasks: Vec<TaskId> = Vec::new();
    let mut i: usize = 0;
    while i < world.task_board.tasks.len()
        invariant
            i <= world.task_board.tasks@.len(),
            tasks@.len() == i,
            forall|j: int| 0 <= j < i ==> #[trigger] tasks@[j] == world.task_board.tasks@[j].id,
        decreases world.task_board.tasks@.len() - i,
    {
        tasks.push(world.task_board.tasks[i].id);
        i = i + 1;
    }
    (pawns, items, fixtures, tasks)
}


// ---- the round trip ----

/// The ids of `s` strictly increase.
pub open spec fn strictly_sorted<T: Keyed>(s: Seq<T>) -> bool {
    forall|a: int, b: int| 0 <= a < b < s.len() ==> s[a].key_of() < s[b].key_of()
}

/// A permutation that carries strictly increasing keys to non-decreasing ones
/// is the identity.
proof fn lemma_perm_identity(keys: Seq<u64>, p: Seq<int>)
    requires
        is_perm(p, keys.len() as int),
        forall|a: int, b: int| 0 <= a < b < keys.len() ==> keys[a] < keys[b],
        forall|a: int, b: int| 0 <= a <= b < keys.len() ==> keys[p[a]] <= keys[p[b]],
    ensures
        forall|i: int| 0 <= i < keys.len() ==> p[i] == i,
{
    let n = keys.len() as int;
    assert forall|a: int, b: int| 0 <= a < b < n implies p[a] < p[b] by {
        assert(keys[p[a]] <= keys[p[b]]);
        assert(p[a] != p[b]);
        if p[a] > p[b] {
            assert(keys[p[b]] < keys[p[a]]);
        }
    }
    lemma_increasing_low(p, n, n);
    lemma_increasing_high(p, n, 0);
}

proof fn lemma_increasing_low(p: Seq<int>, n: int, m: int)
    requires
        0 <= m <= n,
        p.len() == n,
        forall|i: int| 0 <= i < n ==> 0 <= #[trigger] p[i] < n,
        forall|a: int, b: int| 0 <= a < b < n ==> p[a] < p[b],
    ensures
        forall|i: int| 0 <= i < m ==> p[i] >= i,
    decreases m,
{
    if m > 0 {
        lemma_increasing_low(p, n, m - 1);
        if m - 1 > 0 {
            assert(p[m - 2] < p[m - 1]);
        }
    }
}

proof fn lemma_increasing_high(p: Seq<int>, n: int, m: int)
    requires
        0 <= m <= n,
        p.len() == n,
        forall|i: int| 0 <= i < n ==> 0 <= #[trigger] p[i] < n,
        forall|a: int, b: int| 0 <= a < b < n ==> p[a] < p[b],
    ensures
        forall|i: int| m <= i < n ==> p[i] <= i,
    decreases n - m,
{
    if m < n {
        lemma_increasing_high(p, n, m + 1);
        if m + 1 < n {
            assert(p[m] < p[m + 1]);
        }
    }
}

/// The ground parts of items that all lie on the ground are all of them.
proof fn lemma_ground_parts_all(items: Seq<ItemEntity>)
    requires
        forall|i: int| 0 <= i < items.len() ==> #[trigger] items[i].relation is OnGround,
    ensures
        ground_parts(items).len() == items.len(),
        forall|i: int|
            0 <= i < items.len() ==> #[trigger] ground_parts(items)[i] == (items[i].item, ground_tile(items[i].relation)),
    decreases items.len(),
{
    if items.len() > 0 {
        let rest = items.drop_last();
        assert forall|i: int| 0 <= i < rest.len() implies #[trigger] rest[i].relation is OnGround by {
            assert(rest[i] == items[i]);
        }
        lemma_ground_parts_all(rest);
        assert forall|i: int| 0 <= i < items.len() implies #[trigger] ground_parts(items)[i] == (
            items[i].item,
            ground_tile(items[i].relation),
        ) by {
            if i < rest.len() {
                assert(rest[i] == items[i]);
            }
        }
    }
}

/// The tile of an item lying on the ground.
pub open spec fn ground_tile(rel: ItemRelation) -> TileId {
    match rel {
        ItemRelation::OnGround(p) => p,
        _ => TileId { x: 0, y: 0 },
    }
}

/// A snapshot survives a round trip through a world: restoring a snapshot
/// whose lists are ordered by distinct ids, and taking the snapshot of the
/// world it gives, yields the same pawns, items and fixtures.
pub proof fn law_snapshot_round_trip(
    snap: WorldSnapshot,
    w: SimWorld,
    first: int,
    pawns: Seq<(Pawn, TileId)>,
    items: Seq<(Item, TileId)>,
    fixtures: Seq<(Fixture, TileId)>,
    tasks: Seq<TaskId>,
    tick: Tick,
    again: WorldSnapshot,
)
    requires
        strictly_sorted(snap.pawns@),
        strictly_sorted(snap.items@),
        strictly_sorted(snap.fixtures@),
        snapshot_restored(w, snap, first),
        parts_of(w, pawns, items, fixtures, tasks),
        snapshot_built(again, tick, w.scenario_seed, pawns, items, fixtures, tasks),
    ensures
        again.tick == tick.0,
        again.scenario_seed == w.scenario_seed,
        again.items@ == snap.items@,
        again.pawns@.len() == snap.pawns@.len(),
        forall|i: int|
            #![trigger again.pawns@[i]]
            0 <= i < snap.pawns@.len() ==> {
                &&& again.pawns@[i].pawn.id == snap.pawns@[i].pawn.id
                &&& again.pawns@[i].pawn.inventory@ == snap.pawns@[i].pawn.inventory@
                &&& again.pawns@[i].pawn.sleep == snap.pawns@[i].pawn.sleep
                &&& again.pawns@[i].pawn.hunger == snap.pawns@[i].pawn.hunger
                &&& again.pawns@[i].pos == snap.pawns@[i].pos
            },
        again.fixtures@.len() == snap.fixtures@.len(),
        forall|i: int|
            #![trigger again.fixtures@[i]]
            0 <= i < snap.fixtures@.len() ==> {
                &&& again.fixtures@[i].fixture.id == snap.fixtures@[i].fixture.id
                &&& again.fixtures@[i].fixture.kind == snap.fixtures@[i].fixture.kind
                &&& again.fixtures@[i].fixture.inventory@ == snap.fixtures@[i].fixture.inventory@
                &&& again.fixtures@[i].pos == snap.fixtures@[i].pos
            },
{
    // Pawns.
    let ep = pawns.map_values(|p: (Pawn, TileId)| pawn_entry(p));
    let pp = choose|p: Seq<int>| is_perm(p, ep.len() as int) && again.pawns@.len() == ep.len() && forall|i: int|
        0 <= i < again.pawns@.len() ==> #[trigger] again.pawns@[i] == ep[p[i]];
    let kp = Seq::new(snap.pawns@.len(), |j: int| snap.pawns@[j].key_of());
    assert forall|j: int| 0 <= j < ep.len() implies #[trigger] ep[j].key_of() == kp[j] by {
        assert(pawn_restored(w.pawns@[j], snap.pawns@[j], Entity((first + j) as u64)));
    }
    assert forall|a: int, b: int| 0 <= a <= b < kp.len() implies kp[pp[a]] <= kp[pp[b]] by {
        assert(again.pawns@[a] == ep[pp[a]]);
        assert(again.pawns@[b] == ep[pp[b]]);
    }
    lemma_perm_identity(kp, pp);
    assert forall|i: int|
        #![trigger again.pawns@[i]]
        0 <= i < snap.pawns@.len() implies {
        &&& again.pawns@[i].pawn.id == snap.pawns@[i].pawn.id
        &&& again.pawns@[i].pawn.inventory@ == snap.pawns@[i].pawn.inventory@
        &&& again.pawns@[i].pawn.sleep == snap.pawns@[i].pawn.sleep
        &&& again.pawns@[i].pawn.hunger == snap.pawns@[i].pawn.hunger
        &&& again.pawns@[i].pos == snap.pawns@[i].pos
    } by {
        assert(again.pawns@[i] == ep[i]);
        assert(pawn_restored(w.pawns@[i], snap.pawns@[i], Entity((first + i) as u64)));
    }
    // Items.
    let np = snap.pawns@.len() as int;
    assert forall|i: int| 0 <= i < w.items@.len() implies #[trigger] w.items@[i].relation is OnGround by {
        assert(item_restored(w.items@[i], snap.items@[i], Entity((first + np + i) as u64)));
    }
    lemma_ground_parts_all(w.items@);
    let ei = items.map_values(|p: (Item, TileId)| item_entry(p));
    assert(ei =~= snap.items@) by {
        assert forall|j: int| 0 <= j < ei.len() implies ei[j] == snap.items@[j] by {
            assert(item_restored(w.items@[j], snap.items@[j], Entity((first + np + j) as u64)));
            assert(items[j] == (w.items@[j].item, ground_tile(w.items@[j].relation)));
        }
    }
    let pi = choose|p: Seq<int>| is_perm(p, ei.len() as int) && again.items@.len() == ei.len() && forall|i: int|
        0 <= i < again.items@.len() ==> #[trigger] again.items@[i] == ei[p[i]];
    let ki = Seq::new(snap.items@.len(), |j: int| snap.items@[j].key_of());
    assert forall|a: int, b: int| 0 <= a <= b < ki.len() implies ki[pi[a]] <= ki[pi[b]] by {
        assert(again.items@[a] == ei[pi[a]]);
        assert(again.items@[b] == ei[pi[b]]);
    }
    lemma_perm_identity(ki, pi);
    assert(again.items@ =~= snap.items@) by {
        assert forall|i: int| 0 <= i < again.items@.len() implies again.items@[i] == snap.items@[i] by {
            assert(again.items@[i] == ei[pi[i]]);
        }
    }
    // Fixtures.
    let ef = fixtures.map_values(|p: (Fixture, TileId)| fixture_entry(p));
    let pf = choose|p: Seq<int>| is_perm(p, ef.len() as int) && again.fixtures@.len() == ef.len() && forall|i: int|
        0 <= i < again.fixtures@.len() ==> #[trigger] again.fixtures@[i] == ef[p[i]];
    let kf = Seq::new(snap.fixtures@.len(), |j: int| snap.fixtures@[j].key_of());
    let ni = snap.items@.len() as int;
    assert forall|j: int| 0 <= j < ef.len() implies #[trigger] ef[j].key_of() == kf[j] by {
        assert(fixture_restored(w.fixtures@[j], snap.fixtures@[j], Entity((first + np + ni + j) as u64)));
    }
    assert forall|a: int, b: int| 0 <= a <= b < kf.len() implies kf[pf[a]] <= kf[pf[b]] by {
        assert(again.fixtures@[a] == ef[pf[a]]);
        assert(again.fixtures@[b] == ef[pf[b]]);
    }
    lemma_perm_identity(kf, pf);
    assert forall|i: int|
        #![trigger again.fixtures@[i]]
        0 <= i < snap.fixtures@.len() implies {
        &&& again.fixtures@[i].fixture.id == snap.fixtures@[i].fixture.id
        &&& again.fixtures@[i].fixture.kind == snap.fixtures@[i].fixture.kind
        &&& again.fixtures@[i].fixture.inventory@ == snap.fixtures@[i].fixture.inventory@
        &&& again.fixtures@[i].pos == snap.fixtures@[i].pos
    } by {
        assert(again.fixtures@[i] == ef[i]);
        assert(fixture_restored(w.fixtures@[i], snap.fixtures@[i], Entity((first + np + ni + i) as u64)));
    }
}

} // verus!
