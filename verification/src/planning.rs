//! Building plans: the toils a pawn runs for a job, and the reservations they
//! hold while it runs.
use vstd::prelude::*;
use crate::components::{FixtureKind, ItemKind, ItemRelation, ids_of_kind, item_kind_text};
use crate::grid::TileId;
use crate::ids::{FixtureId, ItemId};
use crate::paths::{adj_path_spec, manhattan_dist, manhattan_path_adj, manhattan_wide};
use crate::reservations::{ReservationKey, Reservations, already_reserved_msg};
use crate::tasks::{BuildingSpec, JobKind, Plan, Task, TaskBoard, TaskSpec, ToilKind, ToilModel, has_task, task_pos};
use crate::ids::TaskId;
use crate::world::{
    FixtureEntity, ItemEntity, SimWorld, coords_bounded, fixture_at, has_fixture, has_item, item_at,
    lemma_bounded_fits, tile_bounded,
};
use crate::text::{tile_debug, tile_text, wrapped_number, wrapped_number_text};

verus! {

/// What a plan under construction amounts to: its toils, the keys it holds, and
/// everything reserved anywhere.
pub struct PlanState {
    pub toils: Seq<ToilModel>,
    pub keys: Seq<ReservationKey>,
    pub res: Set<ReservationKey>,
}

/// The state of plan `p` against the reserved keys `res`.
pub open spec fn plan_state_in(p: &Plan, res: Set<ReservationKey>) -> PlanState {
    PlanState { toils: p.toils@.map_values(|t: ToilKind| t@), keys: p.reservations@, res }
}

/// The state of plan `p` against the reservations `res`.
pub open spec fn plan_state(p: &Plan, res: &Reservations) -> PlanState {
    plan_state_in(p, res@)
}

/// An empty plan against the reservations `res`.
pub open spec fn fresh_state(res: Set<ReservationKey>) -> PlanState {
    PlanState { toils: Seq::empty(), keys: Seq::empty(), res }
}

/// Reserving `k` for the plan: refused when anyone holds it.
pub open spec fn reserve_m(a: PlanState, k: ReservationKey) -> Result<PlanState, Seq<char>> {
    if a.res.contains(k) {
        Err(already_reserved_msg(k))
    } else {
        Ok(PlanState { keys: a.keys.push(k), res: a.res.insert(k), ..a })
    }
}

/// Appending toil `t`.
pub open spec fn push_m(a: PlanState, t: ToilModel) -> PlanState {
    PlanState { toils: a.toils.push(t), ..a }
}

/// Walking from `start` to a tile next to `end`: nothing when the path is empty;
/// otherwise its last tile is reserved and a MoveTo along it appended.
pub open spec fn move_adj_m(a: PlanState, start: TileId, end: TileId) -> Result<PlanState, Seq<char>> {
    let ap = adj_path_spec(start, end);
    if ap.len() == 0 {
        Ok(a)
    } else {
        match reserve_m(a, ReservationKey::Tile(ap.last())) {
            Ok(b) => Ok(push_m(b, ToilModel::MoveTo(ap.last(), ap))),
            Err(e) => Err(e),
        }
    }
}

/// `b` continues `a`: the same first keys, then keys that nobody held, now reserved.
pub open spec fn extends(a: PlanState, b: PlanState) -> bool {
    &&& a.keys.len() <= b.keys.len()
    &&& b.keys.take(a.keys.len() as int) == a.keys
    &&& b.res == a.res.union(b.keys.skip(a.keys.len() as int).to_set())
    &&& forall|i: int| a.keys.len() <= i < b.keys.len() ==> !a.res.contains(#[trigger] b.keys[i])
}

/// A plan `b` built on the reserved keys `res0` holds only keys nobody held
/// before, and the reserved keys are then `res0` and the plan's keys.
pub open spec fn takes_free_keys(res0: Set<ReservationKey>, b: PlanState) -> bool {
    &&& forall|i: int| 0 <= i < b.keys.len() ==> !res0.contains(#[trigger] b.keys[i])
    &&& b.res == res0.union(b.keys.to_set())
}

proof fn lemma_fresh_extends(res0: Set<ReservationKey>, b: PlanState)
    requires
        extends(fresh_state(res0), b),
    ensures
        takes_free_keys(res0, b),
{
    assert(b.keys.skip(0) =~= b.keys);
}

pub proof fn lemma_extends_refl(a: PlanState)
    ensures
        extends(a, a),
{
    assert(a.keys.take(a.keys.len() as int) =~= a.keys);
    assert(a.keys.skip(a.keys.len() as int).to_set() =~= Set::<ReservationKey>::empty());
    assert(a.res.union(Set::<ReservationKey>::empty()) =~= a.res);
}

pub proof fn lemma_extends_trans(a: PlanState, b: PlanState, c: PlanState)
    requires
        extends(a, b),
        extends(b, c),
    ensures
        extends(a, c),
{
    let na = a.keys.len() as int;
    let nb = b.keys.len() as int;
    assert(c.keys.take(na) =~= c.keys.take(nb).take(na));
    assert(c.keys.skip(na) =~= b.keys.skip(na) + c.keys.skip(nb)) by {
        assert(b.keys =~= c.keys.take(nb));
    }
    assert(c.keys.skip(na).to_set() =~= b.keys.skip(na).to_set().union(c.keys.skip(nb).to_set())) by {
        vstd::seq_lib::seq_to_set_distributes_over_add(b.keys.skip(na), c.keys.skip(nb));
    }
    assert(c.res =~= a.res.union(c.keys.skip(na).to_set()));
    assert forall|i: int| na <= i < c.keys.len() implies !a.res.contains(#[trigger] c.keys[i]) by {
        if i < nb {
            assert(c.keys[i] == b.keys[i]) by {
                assert(b.keys =~= c.keys.take(nb));
            }
        } else {
            assert(!b.res.contains(c.keys[i]));
        }
    }
}

/// Releasing every key of a plan that started from `a` with no key gives back `a`'s reservations.
pub proof fn lemma_release_restores(a: PlanState, b: PlanState)
    requires
        a.keys.len() == 0,
        extends(a, b),
    ensures
        b.res.difference(b.keys.to_set()) == a.res,
{
    assert(b.keys.skip(0) =~= b.keys);
    assert forall|k: ReservationKey| #[trigger] b.res.difference(b.keys.to_set()).contains(k) == a.res.contains(k) by {
        if a.res.contains(k) && b.keys.to_set().contains(k) {
            let i = choose|i: int| 0 <= i < b.keys.len() && b.keys[i] == k;
            assert(!a.res.contains(b.keys[i]));
        }
    }
    assert(b.res.difference(b.keys.to_set()) =~= a.res);
}

pub proof fn lemma_reserve_extends(a: PlanState, k: ReservationKey)
    ensures
        reserve_m(a, k) matches Ok(b) ==> extends(a, b),
{
    if !a.res.contains(k) {
        let b = PlanState { keys: a.keys.push(k), res: a.res.insert(k), ..a };
        assert(b.keys.take(a.keys.len() as int) =~= a.keys);
        assert(b.keys.skip(a.keys.len() as int) =~= seq![k]);
        assert(seq![k].to_set() =~= set![k]) by {
            broadcast use vstd::seq_lib::group_seq_properties;
            assert(seq![k].contains(k)) by {
                assert(seq![k][0] == k);
            }
        }
        assert(b.res =~= a.res.union(set![k]));
    }
}

/// The result of a step given by `m` from `before`: on success the plan is in
/// state `b`; on failure the error is reported and nothing changed.
pub open spec fn step_outcome(r: Result<(), String>, m: Result<PlanState, Seq<char>>, before: PlanState, after: PlanState) -> bool {
    match m {
        Ok(b) => r is Ok && after == b,
        Err(msg) => (r matches Err(e) && e@ == msg) && after == before,
    }
}

impl Plan {
    /// Reserve `k` for this plan.
    pub fn reserve_key(&mut self, res: &mut Reservations, k: ReservationKey) -> (r: Result<(), String>)
        ensures
            step_outcome(r, reserve_m(plan_state(old(self), old(res)), k), plan_state(old(self), old(res)), plan_state(final(self), final(res))),
            extends(plan_state(old(self), old(res)), plan_state(final(self), final(res))),
    {
        let r = self.reservations.try_reserve(res, k);
        proof {
            lemma_reserve_extends(plan_state(old(self), old(res)), k);
            lemma_extends_refl(plan_state(old(self), old(res)));
        }
        r
    }

    /// Append toil `t`.
    pub fn push_toil(&mut self, t: ToilKind)
        ensures
            final(self).reservations == old(self).reservations,
            final(self).toils@.map_values(|t: ToilKind| t@) == old(self).toils@.map_values(|t: ToilKind| t@).push(t@),
    {
        let ghost before = self.toils@;
        self.toils.push_back(t);
        assert(self.toils@.map_values(|t: ToilKind| t@) =~= before.map_values(|t: ToilKind| t@).push(t@));
    }

    /// Walk from `start` to a tile next to `end`, reserving the tile the walk ends on.
    pub fn move_to_adj(&mut self, res: &mut Reservations, start: TileId, end: TileId) -> (r: Result<(), String>)
        requires
            start == end ==> start.x < i32::MAX,
        ensures
            step_outcome(r, move_adj_m(plan_state(old(self), old(res)), start, end), plan_state(old(self), old(res)), plan_state(final(self), final(res))),
            extends(plan_state(old(self), old(res)), plan_state(final(self), final(res))),
    {
        let path = manhattan_path_adj(start, end);
        let n = path.len();
        if n == 0 {
            proof {
                lemma_extends_refl(plan_state(self, res));
            }
            return Ok(());
        }
        let target = path[n - 1];
        assert(target == adj_path_spec(start, end).last());
        let r = self.reserve_key(res, ReservationKey::Tile(target));
        match r {
            Ok(()) => {
                self.push_toil(ToilKind::MoveTo { target, path });
                Ok(())
            },
            Err(e) => Err(e),
        }
    }
}

/// The MoveTo from `start` to a tile next to `end`, or `None` when there is no walk.
pub fn move_to_adj(start: TileId, end: TileId) -> (r: Option<ToilKind>)
    requires
        start == end ==> start.x < i32::MAX,
    ensures
        adj_path_spec(start, end).len() == 0 ==> r is None,
        adj_path_spec(start, end).len() > 0 ==> (r matches Some(t) && t@ == ToilModel::MoveTo(
            adj_path_spec(start, end).last(),
            adj_path_spec(start, end),
        )),
{
    let path = manhattan_path_adj(start, end);
    let n = path.len();
    if n == 0 {
        return None;
    }
    let target = path[n - 1];
    Some(ToilKind::MoveTo { target, path })
}


// ---- finding things ----

/// Tile of a ground item (the origin for other relations).
pub open spec fn ground_tile(it: ItemEntity) -> TileId {
    match it.relation {
        ItemRelation::OnGround(t) => t,
        _ => TileId { x: 0, y: 0 },
    }
}

/// `it` lies on the ground, is of kind `k`, and nobody has reserved it.
pub open spec fn ground_candidate(it: ItemEntity, k: ItemKind, res: Set<ReservationKey>) -> bool {
    &&& it.relation is OnGround
    &&& it.item.kind == k
    &&& !res.contains(ReservationKey::Item(it.item.id))
}

/// The nearest free ground item of kind `k` among the first `n` item records,
/// with its distance from `pos`; among equally near ones, the last.
pub open spec fn nearest_ground(items: Seq<ItemEntity>, k: ItemKind, pos: TileId, res: Set<ReservationKey>, n: int) -> Option<(ItemId, int)>
    decreases n,
{
    if n <= 0 {
        None
    } else {
        let prev = nearest_ground(items, k, pos, res, n - 1);
        let it = items[n - 1];
        if ground_candidate(it, k, res) {
            let d = manhattan_dist(pos, ground_tile(it));
            match prev {
                Some(best) => if d > best.1 {
                    prev
                } else {
                    Some((it.item.id, d))
                },
                None => Some((it.item.id, d)),
            }
        } else {
            prev
        }
    }
}

/// The first item of kind `k` in `inv` that nobody has reserved.
pub open spec fn first_free(inv: Seq<(ItemId, ItemKind)>, k: ItemKind, res: Set<ReservationKey>) -> Option<ItemId>
    decreases inv.len(),
{
    if inv.len() == 0 {
        None
    } else if inv[0].1 == k && !res.contains(ReservationKey::Item(inv[0].0)) {
        Some(inv[0].0)
    } else {
        first_free(inv.drop_first(), k, res)
    }
}

/// The nearest fixture, among the first `n`, holding a free item of kind `k`:
/// that item, with the fixture's distance from `pos`; among equally near ones,
/// the last.
pub open spec fn nearest_fixture(fs: Seq<FixtureEntity>, k: ItemKind, pos: TileId, res: Set<ReservationKey>, n: int) -> Option<(ItemId, int)>
    decreases n,
{
    if n <= 0 {
        None
    } else {
        let prev = nearest_fixture(fs, k, pos, res, n - 1);
        let f = fs[n - 1];
        match first_free(f.fixture.inventory@, k, res) {
            Some(id) => {
                let d = manhattan_dist(pos, f.pos);
                match prev {
                    Some(best) => if d > best.1 {
                        prev
                    } else {
                        Some((id, d))
                    },
                    None => Some((id, d)),
                }
            },
            None => prev,
        }
    }
}

/// The nearer of two found items; on a tie, the second.
pub open spec fn closer(a: Option<(ItemId, int)>, b: Option<(ItemId, int)>) -> Option<(ItemId, int)> {
    match (a, b) {
        (Some(x), Some(y)) => if x.1 < y.1 {
            a
        } else {
            b
        },
        (Some(_), None) => a,
        (None, Some(_)) => b,
        (None, None) => None,
    }
}

/// The nearest free ground item of kind `k` among the first `n` records: none
/// exactly when there is no free ground item of that kind; otherwise a free
/// ground item of that kind, found with its distance in steps along the grid,
/// that no other is nearer than, and the last of those as near.
pub proof fn law_nearest_ground(items: Seq<ItemEntity>, k: ItemKind, pos: TileId, res: Set<ReservationKey>, n: int)
    requires
        0 <= n <= items.len(),
    ensures
        nearest_ground(items, k, pos, res, n) is None <==> forall|q: int|
            0 <= q < n ==> !ground_candidate(#[trigger] items[q], k, res),
        nearest_ground(items, k, pos, res, n) matches Some(found) ==> exists|m: int|
            #![trigger items[m]]
            0 <= m < n && ground_candidate(items[m], k, res) && items[m].item.id == found.0 && found.1 == grid_steps(
                pos,
                ground_tile(items[m]),
            ) && (forall|q: int|
                0 <= q < n && ground_candidate(#[trigger] items[q], k, res) ==> found.1 <= grid_steps(
                    pos,
                    ground_tile(items[q]),
                )) && (forall|q: int|
                m < q < n && ground_candidate(#[trigger] items[q], k, res) ==> found.1 < grid_steps(
                    pos,
                    ground_tile(items[q]),
                )),
    decreases n,
{
    if n > 0 {
        law_nearest_ground(items, k, pos, res, n - 1);
        if let Some(found) = nearest_ground(items, k, pos, res, n) {
            if nearest_ground(items, k, pos, res, n) == nearest_ground(items, k, pos, res, n - 1) {
                let m = choose|m: int|
                    #![trigger items[m]]
                    0 <= m < n - 1 && ground_candidate(items[m], k, res) && items[m].item.id == found.0 && found.1
                        == grid_steps(pos, ground_tile(items[m])) && (forall|q: int|
                        0 <= q < n - 1 && ground_candidate(#[trigger] items[q], k, res) ==> found.1 <= grid_steps(
                            pos,
                            ground_tile(items[q]),
                        )) && (forall|q: int|
                        m < q < n - 1 && ground_candidate(#[trigger] items[q], k, res) ==> found.1 < grid_steps(
                            pos,
                            ground_tile(items[q]),
                        ));
                assert(items[m] == items[m]);
            } else {
                assert(items[n - 1] == items[n - 1]);
            }
        }
    }
}

/// The item of kind `k` first in the inventory `inv` that the keys `res` leave
/// free: none exactly when there is none such; otherwise one such, with none
/// before it.
pub proof fn law_first_free(inv: Seq<(ItemId, ItemKind)>, k: ItemKind, res: Set<ReservationKey>)
    ensures
        first_free(inv, k, res) is None <==> forall|i: int|
            0 <= i < inv.len() ==> !((#[trigger] inv[i]).1 == k && !res.contains(ReservationKey::Item(inv[i].0))),
        first_free(inv, k, res) matches Some(id) ==> exists|i: int|
            #![trigger inv[i]]
            0 <= i < inv.len() && inv[i].0 == id && inv[i].1 == k && !res.contains(ReservationKey::Item(id)) && forall|
                j: int,
            |
                0 <= j < i ==> !((#[trigger] inv[j]).1 == k && !res.contains(ReservationKey::Item(inv[j].0))),
    decreases inv.len(),
{
    if inv.len() > 0 {
        law_first_free(inv.drop_first(), k, res);
        let t = inv.drop_first();
        assert forall|i: int| 0 <= i < t.len() implies #[trigger] t[i] == inv[i + 1] by {}
        if let Some(id) = first_free(inv, k, res) {
            if !(inv[0].1 == k && !res.contains(ReservationKey::Item(inv[0].0))) {
                let i = choose|i: int|
                    #![trigger t[i]]
                    0 <= i < t.len() && t[i].0 == id && t[i].1 == k && !res.contains(ReservationKey::Item(id)) && forall|
                        j: int,
                    |
                        0 <= j < i ==> !((#[trigger] t[j]).1 == k && !res.contains(ReservationKey::Item(t[j].0)));
                assert(inv[i + 1] == t[i]);
                assert forall|j: int| 0 <= j < i + 1 implies !((#[trigger] inv[j]).1 == k && !res.contains(
                    ReservationKey::Item(inv[j].0),
                )) by {
                    if j > 0 {
                        assert(inv[j] == t[j - 1]);
                    }
                }
            } else {
                assert(inv[0] == inv[0]);
            }
        } else {
            assert forall|i: int| 0 <= i < inv.len() implies !((#[trigger] inv[i]).1 == k && !res.contains(
                ReservationKey::Item(inv[i].0),
            )) by {
                if i > 0 {
                    assert(inv[i] == t[i - 1]);
                }
            }
        }
    }
}

/// The nearest fixture, among the first `n`, holding a free item of kind `k`:
/// none exactly when no such fixture holds one; otherwise the first free such
/// item of a fixture, found with that fixture's distance in steps along the
/// grid, that no other such fixture is nearer than, the last of those as near.
/// Fixture `m`, among the first `n` of `fs`, gives `found`: its first free item
/// of kind `k` with its distance from `pos` in steps along the grid; no fixture
/// holding a free item of that kind is nearer, and none after `m` is as near.
pub open spec fn fixture_found_at(
    fs: Seq<FixtureEntity>,
    k: ItemKind,
    pos: TileId,
    res: Set<ReservationKey>,
    n: int,
    m: int,
    found: (ItemId, int),
) -> bool {
    &&& 0 <= m < n
    &&& first_free(fs[m].fixture.inventory@, k, res) == Some(found.0)
    &&& found.1 == grid_steps(pos, fs[m].pos)
    &&& forall|q: int|
        0 <= q < n && first_free((#[trigger] fs[q]).fixture.inventory@, k, res) is Some ==> found.1 <= grid_steps(
            pos,
            fs[q].pos,
        )
    &&& forall|q: int|
        m < q < n && first_free((#[trigger] fs[q]).fixture.inventory@, k, res) is Some ==> found.1 < grid_steps(
            pos,
            fs[q].pos,
        )
}

/// The nearest fixture, among the first `n`, holding a free item of kind `k`:
/// none exactly when no such fixture holds one; otherwise the first free such
/// item of a fixture, found with that fixture's distance in steps along the
/// grid, that no other such fixture is nearer than, the last of those as near.
pub proof fn law_nearest_fixture(fs: Seq<FixtureEntity>, k: ItemKind, pos: TileId, res: Set<ReservationKey>, n: int)
    requires
        0 <= n <= fs.len(),
    ensures
        nearest_fixture(fs, k, pos, res, n) is None <==> forall|q: int|
            0 <= q < n ==> first_free((#[trigger] fs[q]).fixture.inventory@, k, res) is None,
        nearest_fixture(fs, k, pos, res, n) is Some ==> exists|m: int|
            #[trigger] fixture_found_at(fs, k, pos, res, n, m, nearest_fixture(fs, k, pos, res, n)->Some_0),
    decreases n,
{
    if n > 0 {
        law_nearest_fixture(fs, k, pos, res, n - 1);
        let cur = nearest_fixture(fs, k, pos, res, n);
        let prev = nearest_fixture(fs, k, pos, res, n - 1);
        let ff = first_free(fs[n - 1].fixture.inventory@, k, res);
        let d = grid_steps(pos, fs[n - 1].pos);
        assert(d == manhattan_dist(pos, fs[n - 1].pos));
        if ff is Some && (prev is None || d <= prev.unwrap().1) {
            assert(cur == Some((ff->Some_0, d)));
            assert(fixture_found_at(fs, k, pos, res, n, n - 1, cur->Some_0));
        } else if cur is Some {
            assert(cur == prev);
            let found = cur->Some_0;
            let m = choose|m: int| #[trigger] fixture_found_at(fs, k, pos, res, n - 1, m, found);
            assert(fixture_found_at(fs, k, pos, res, n, m, found));
        }
    }
}

/// Of two found items, the one nearer by its distance, the second on a tie;
/// none only when neither is found.
pub proof fn law_closer(a: Option<(ItemId, int)>, b: Option<(ItemId, int)>)
    ensures
        closer(a, b) is None <==> (a is None && b is None),
        a is None ==> closer(a, b) == b,
        b is None ==> closer(a, b) == a,
        a is Some && b is Some ==> closer(a, b) == if a.unwrap().1 < b.unwrap().1 {
            a
        } else {
            b
        },
{
}

/// An exec distance result matches a spec one.
pub open spec fn found_is(r: Option<(ItemId, u32)>, s: Option<(ItemId, int)>) -> bool {
    match s {
        Some(x) => r matches Some(y) && y.0 == x.0 && y.1 as int == x.1,
        None => r is None,
    }
}

/// The nearest free item of kind `k` lying on the ground, with its distance.
pub fn nearest_item_on_ground(k: ItemKind, pos: TileId, world: &SimWorld, res: &Reservations) -> (r: Option<(ItemId, u32)>)
    requires
        coords_bounded(world),
        tile_bounded(pos),
    ensures
        found_is(r, nearest_ground(world.items@, k, pos, res@, world.items@.len() as int)),
{
    let mut best: Option<(ItemId, u32)> = None;
    let mut i: usize = 0;
    while i < world.items.len()
        invariant
            i <= world.items@.len(),
            coords_bounded(world),
            tile_bounded(pos),
            found_is(best, nearest_ground(world.items@, k, pos, res@, i as int)),
        decreases world.items@.len() - i,
    {
        let it = &world.items[i];
        match it.relation {
            ItemRelation::OnGround(t) => {
                if it.item.kind == k && !res.is_reserved(ReservationKey::Item(it.item.id)) {
                    proof {
                        assert(tile_bounded(t));
                        lemma_bounded_fits(pos, t);
                    }
                    let d = crate::paths::manhattan(pos, t);
                    let skip = match best {
                        Some(b) => d > b.1,
                        None => false,
                    };
                    if !skip {
                        best = Some((it.item.id, d));
                    }
                }
            },
            _ => {},
        }
        i = i + 1;
    }
    best
}

/// The first free item of kind `k` in `inv`.
pub fn first_free_item(inv: &crate::components::Inventory, k: ItemKind, res: &Reservations) -> (r: Option<ItemId>)
    ensures
        r == first_free(inv@, k, res@),
{
    let mut i: usize = 0;
    assert(inv@.skip(0) =~= inv@);
    while i < inv.0.len()
        invariant
            i <= inv@.len(),
            first_free(inv@, k, res@) == first_free(inv@.skip(i as int), k, res@),
        decreases inv@.len() - i,
    {
        proof {
            assert(inv@.skip(i as int)[0] == inv@[i as int]);
            assert(inv@.skip(i as int).drop_first() =~= inv@.skip(i as int + 1));
        }
        let (id, kind) = inv.0[i];
        if kind == k && !res.is_reserved(ReservationKey::Item(id)) {
            return Some(id);
        }
        i = i + 1;
    }
    None
}

/// The nearest fixture holding a free item of kind `k`: that item, with the
/// fixture's distance.
pub fn nearest_fixture_with_item(k: ItemKind, pos: TileId, world: &SimWorld, res: &Reservations) -> (r: Option<(ItemId, u32)>)
    requires
        coords_bounded(world),
        tile_bounded(pos),
    ensures
        found_is(r, nearest_fixture(world.fixtures@, k, pos, res@, world.fixtures@.len() as int)),
{
    let mut best: Option<(ItemId, u32)> = None;
    let mut i: usize = 0;
    while i < world.fixtures.len()
        invariant
            i <= world.fixtures@.len(),
            coords_bounded(world),
            tile_bounded(pos),
            found_is(best, nearest_fixture(world.fixtures@, k, pos, res@, i as int)),
        decreases world.fixtures@.len() - i,
    {
        let f = &world.fixtures[i];
        match first_free_item(&f.fixture.inventory, k, res) {
            Some(id) => {
                proof {
                    assert(tile_bounded(world.fixtures@[i as int].pos));
                    lemma_bounded_fits(pos, f.pos);
                }
                let d = crate::paths::manhattan(pos, f.pos);
                let skip = match best {
                    Some(b) => d > b.1,
                    None => false,
                };
                if !skip {
                    best = Some((id, d));
                }
            },
            None => {},
        }
        i = i + 1;
    }
    best
}

/// The nearer of two found items; on a tie, the second.
pub fn closer_option_item_locator(a: Option<(ItemId, u32)>, b: Option<(ItemId, u32)>) -> (r: Option<(ItemId, u32)>)
    ensures
        r == match (a, b) {
            (Some(x), Some(y)) => if x.1 < y.1 {
                a
            } else {
                b
            },
            (Some(_), None) => a,
            (None, Some(_)) => b,
            (None, None) => None::<(ItemId, u32)>,
        },
{
    match (a, b) {
        (Some(x), Some(y)) => {
            if x.1 < y.1 {
                Some(x)
            } else {
                Some(y)
            }
        },
        (Some(x), None) => Some(x),
        (None, Some(y)) => Some(y),
        (None, None) => None,
    }
}


/// The error text for an item id with no item record.
pub open spec fn item_missing_msg(id: ItemId) -> Seq<char> {
    "Item "@ + wrapped_number("ItemId"@, id.0 as nat) + " not found"@
}

/// The error text for a fixture id with no fixture record.
pub open spec fn fixture_missing_msg(id: FixtureId) -> Seq<char> {
    "Fixture "@ + wrapped_number("FixtureId"@, id.0 as nat) + " not found"@
}

/// Where item `id` is for a pawn standing at `pos`: on its tile, at its fixture,
/// or with the pawn when carried.
pub open spec fn item_pos_m(w: &SimWorld, id: ItemId, pos: TileId) -> Result<TileId, Seq<char>> {
    if !has_item(w.items@, id) {
        Err(item_missing_msg(id))
    } else {
        match w.items@[item_at(w.items@, id)].relation {
            ItemRelation::CarriedBy(_) => Ok(pos),
            ItemRelation::InFixture(f) => if has_fixture(w.fixtures@, f) {
                Ok(w.fixtures@[fixture_at(w.fixtures@, f)].pos)
            } else {
                Err(fixture_missing_msg(f))
            },
            ItemRelation::OnGround(t) => Ok(t),
        }
    }
}

/// Where item `id` is (`item_pos_m`).
fn locate_item(world: &SimWorld, id: ItemId, pos: TileId) -> (r: Result<TileId, String>)
    requires
        world.wf(),
    ensures
        match item_pos_m(world, id, pos) {
            Ok(t) => r == Ok::<TileId, String>(t),
            Err(m) => r matches Err(e) && e@ == m,
        },
{
    match world.find_item(id) {
        None => {
            let mut e = String::from_str("Item ");
            let n = wrapped_number_text("ItemId", id.0);
            e.append(n.as_str());
            e.append(" not found");
            Err(e)
        },
        Some(ii) => match world.items[ii].relation {
            ItemRelation::CarriedBy(_) => Ok(pos),
            ItemRelation::InFixture(f) => match world.find_fixture(f) {
                Some(fi) => Ok(world.fixtures[fi].pos),
                None => {
                    let mut e = String::from_str("Fixture ");
                    let n = wrapped_number_text("FixtureId", f.0);
                    e.append(n.as_str());
                    e.append(" not found");
                    Err(e)
                },
            },
            ItemRelation::OnGround(t) => Ok(t),
        },
    }
}

/// Getting an item of kind `k` for pawn `pi`: one it carries is only reserved;
/// otherwise the nearer of the nearest free ground item and the nearest fixture
/// holding a free one is walked to, reserved and picked up. Gives the item and
/// where the pawn will be holding it.
pub open spec fn acquire_m(w: &SimWorld, pi: int, k: ItemKind, a: PlanState) -> Result<(PlanState, ItemId, TileId), Seq<char>> {
    let p = w.pawns@[pi];
    let own = ids_of_kind(p.pawn.inventory@, k);
    if own.len() > 0 {
        match reserve_m(a, ReservationKey::Item(own[0])) {
            Ok(b) => Ok((b, own[0], p.pos)),
            Err(e) => Err(e),
        }
    } else {
        match closer(
            nearest_ground(w.items@, k, p.pos, a.res, w.items@.len() as int),
            nearest_fixture(w.fixtures@, k, p.pos, a.res, w.fixtures@.len() as int),
        ) {
            None => Err("No item found for "@ + item_kind_text(k)),
            Some(found) => match item_pos_m(w, found.0, p.pos) {
                Err(e) => Err(e),
                Ok(ip) => match move_adj_m(a, p.pos, ip) {
                    Err(e) => Err(e),
                    Ok(b) => match reserve_m(b, ReservationKey::Item(found.0)) {
                        Err(e) => Err(e),
                        Ok(c) => Ok((push_m(c, ToilModel::PickUpItem(found.0)), found.0, ip)),
                    },
                },
            },
        }
    }
}

/// What the planning functions need of the world: well formed, with bounded
/// positions, and `pi` a pawn.
pub open spec fn plannable(w: &SimWorld, pi: int) -> bool {
    &&& w.wf()
    &&& coords_bounded(w)
    &&& 0 <= pi < w.pawns@.len()
}

/// Add to `plan` the toils that get an item of kind `k` for pawn `pi`
/// (`acquire_m`); on failure the plan may hold part of them.
pub fn build_acquire_item_plan(world: &SimWorld, pi: usize, k: ItemKind, plan: &mut Plan, res: &mut Reservations) -> (r: Result<(ItemId, TileId), String>)
    requires
        plannable(world, pi as int),
    ensures
        extends(plan_state(old(plan), old(res)), plan_state(final(plan), final(res))),
        match acquire_m(world, pi as int, k, plan_state(old(plan), old(res))) {
            Ok((b, id, t)) => r == Ok::<(ItemId, TileId), String>((id, t)) && plan_state(final(plan), final(res)) == b,
            Err(m) => r matches Err(e) && e@ == m,
        },
{
    let pos = world.pawns[pi].pos;
    proof {
        assert(tile_bounded(world.pawns@[pi as int].pos));
    }
    if let Some(id) = world.pawns[pi].pawn.inventory.find(k) {
        match plan.reserve_key(res, ReservationKey::Item(id)) {
            Ok(()) => {
                return Ok((id, pos));
            },
            Err(e) => {
                return Err(e);
            },
        }
    }
    let on_ground = nearest_item_on_ground(k, pos, world, res);
    let in_fixture = nearest_fixture_with_item(k, pos, world, res);
    let found = closer_option_item_locator(on_ground, in_fixture);
    let ghost a = plan_state(plan, res);
    let item_id = match found {
        None => {
            proof {
                lemma_extends_refl(a);
            }
            let mut e = String::from_str("No item found for ");
            e.append(k.name());
            return Err(e);
        },
        Some((id, _)) => id,
    };
    let ip = match locate_item(world, item_id, pos) {
        Ok(t) => t,
        Err(e) => {
            proof {
                lemma_extends_refl(a);
            }
            return Err(e);
        },
    };
    proof {
        assert(has_item(world.items@, item_id));
        let ii = item_at(world.items@, item_id);
        match world.items@[ii].relation {
            ItemRelation::OnGround(t) => {
                assert(tile_bounded(t));
            },
            ItemRelation::InFixture(f) => {
                assert(tile_bounded(world.fixtures@[fixture_at(world.fixtures@, f)].pos));
            },
            _ => {},
        }
    }
    match plan.move_to_adj(res, pos, ip) {
        Ok(()) => {},
        Err(e) => {
            return Err(e);
        },
    }
    let ghost b = plan_state(plan, res);
    match plan.reserve_key(res, ReservationKey::Item(item_id)) {
        Ok(()) => {},
        Err(e) => {
            proof {
                lemma_extends_trans(a, b, plan_state(plan, res));
            }
            return Err(e);
        },
    }
    let ghost c = plan_state(plan, res);
    plan.push_toil(ToilKind::PickUpItem { item_id });
    proof {
        lemma_extends_trans(a, b, c);
        assert(plan_state(plan, res) == push_m(c, ToilModel::PickUpItem(item_id)));
        lemma_push_extends(a, c, ToilModel::PickUpItem(item_id));
    }
    Ok((item_id, ip))
}

/// Appending a toil keeps a continuation a continuation.
pub proof fn lemma_push_extends(a: PlanState, c: PlanState, t: ToilModel)
    requires
        extends(a, c),
    ensures
        extends(a, push_m(c, t)),
{
}

/// The finished plan `r` is the plan `m` describes, built from no key against
/// the reservations `res0`; on failure the reservations are back to `res0`.
pub open spec fn built(r: Result<Plan, String>, m: Result<PlanState, Seq<char>>, res0: Set<ReservationKey>, res: &Reservations) -> bool {
    match m {
        Ok(b) => r matches Ok(p) && plan_state(&p, res) == b,
        Err(msg) => (r matches Err(e) && e@ == msg) && res@ == res0,
    }
}

/// Eating: get a berry, then eat it.
pub open spec fn eat_m(w: &SimWorld, pi: int, a: PlanState) -> Result<PlanState, Seq<char>> {
    match acquire_m(w, pi, ItemKind::Berry, a) {
        Ok((b, id, _)) => Ok(push_m(b, ToilModel::Consume(id))),
        Err(e) => Err(e),
    }
}

/// An empty plan is in the fresh state.
proof fn lemma_new_plan_fresh(p: &Plan, res: &Reservations)
    requires
        p.toils@.len() == 0,
        p.reservations@.len() == 0,
    ensures
        plan_state(p, res) == fresh_state(res@),
{
    assert(p.toils@.map_values(|t: ToilKind| t@) =~= Seq::<ToilModel>::empty());
    assert(p.reservations@ =~= Seq::<ReservationKey>::empty());
}

/// A plan for pawn `pi` to eat (`eat_m`).
pub fn build_eat_plan(world: &SimWorld, pi: usize, res: &mut Reservations) -> (r: Result<Plan, String>)
    requires
        plannable(world, pi as int),
    ensures
        built(r, eat_m(world, pi as int, fresh_state(old(res)@)), old(res)@, final(res)),
        r matches Ok(p) ==> takes_free_keys(old(res)@, plan_state(&p, final(res))),
{
    let mut plan = Plan::new();
    let ghost a = plan_state(&plan, res);
    proof {
        lemma_new_plan_fresh(&plan, res);
    }
    match build_acquire_item_plan(world, pi, ItemKind::Berry, &mut plan, res) {
        Ok((item_id, _)) => {
            plan.push_toil(ToilKind::Consume { item_id });
            proof {
                lemma_fresh_extends(old(res)@, plan_state(&plan, res));
            }
            Ok(plan)
        },
        Err(e) => {
            proof {
                lemma_release_restores(a, plan_state(&plan, res));
            }
            plan.reservations.release_all(res);
            Err(e)
        },
    }
}


// ---- sleeping ----

/// Whether fixture `f` is a sleeping pad nobody has reserved.
pub open spec fn pad_candidate(f: FixtureEntity, res: Set<ReservationKey>) -> bool {
    f.fixture.kind == FixtureKind::SleepingPad && !res.contains(ReservationKey::Fixture(f.fixture.id))
}

/// Position of the nearest free sleeping pad among the first `n` fixtures; among
/// equally near ones, the first.
pub open spec fn pad_pick(fs: Seq<FixtureEntity>, pos: TileId, res: Set<ReservationKey>, n: int) -> Option<int>
    decreases n,
{
    if n <= 0 {
        None
    } else {
        let prev = pad_pick(fs, pos, res, n - 1);
        if pad_candidate(fs[n - 1], res) {
            match prev {
                Some(j) => if manhattan_dist(pos, fs[n - 1].pos) < manhattan_dist(pos, fs[j].pos) {
                    Some(n - 1)
                } else {
                    prev
                },
                None => Some(n - 1),
            }
        } else {
            prev
        }
    }
}

/// Sleeping: walk next to the nearest free sleeping pad, reserve it, and sleep.
pub open spec fn sleep_m(w: &SimWorld, pos: TileId, a: PlanState) -> Result<PlanState, Seq<char>> {
    match pad_pick(w.fixtures@, pos, a.res, w.fixtures@.len() as int) {
        None => Err("No sleeping pad found for pawn "@ + tile_debug(pos.x as int, pos.y as int)),
        Some(fi) => {
            let f = w.fixtures@[fi];
            match move_adj_m(a, pos, f.pos) {
                Err(e) => Err(e),
                Ok(b) => match reserve_m(b, ReservationKey::Fixture(f.fixture.id)) {
                    Err(e) => Err(e),
                    Ok(c) => Ok(push_m(c, ToilModel::Sleep(f.fixture.id))),
                },
            }
        },
    }
}

/// Steps along the grid between two tiles: horizontal plus vertical distance.
pub open spec fn grid_steps(a: TileId, b: TileId) -> int {
    (if a.x >= b.x { a.x - b.x } else { b.x - a.x }) + (if a.y >= b.y { a.y - b.y } else { b.y - a.y })
}

/// Whether fixture `f` is a sleeping pad that the keys `res` leave free.
pub open spec fn free_pad(f: FixtureEntity, res: Set<ReservationKey>) -> bool {
    f.fixture.kind == FixtureKind::SleepingPad && !res.contains(ReservationKey::Fixture(f.fixture.id))
}

proof fn lemma_pad_pick(fs: Seq<FixtureEntity>, pos: TileId, res: Set<ReservationKey>, n: int)
    requires
        0 <= n <= fs.len(),
    ensures
        match pad_pick(fs, pos, res, n) {
            None => forall|q: int| 0 <= q < n ==> !free_pad(#[trigger] fs[q], res),
            Some(j) => {
                &&& 0 <= j < n
                &&& free_pad(fs[j], res)
                &&& forall|q: int|
                    0 <= q < n && free_pad(#[trigger] fs[q], res) ==> grid_steps(pos, fs[j].pos) <= grid_steps(
                        pos,
                        fs[q].pos,
                    )
                &&& forall|q: int|
                    0 <= q < j && free_pad(#[trigger] fs[q], res) ==> grid_steps(pos, fs[j].pos) < grid_steps(
                        pos,
                        fs[q].pos,
                    )
            },
        },
    decreases n,
{
    if n > 0 {
        lemma_pad_pick(fs, pos, res, n - 1);
    }
}

/// A sleep plan goes to a free sleeping pad that no other free pad is nearer
/// to the pawn than (in steps along the grid), the first such pad when several
/// are as near; it reserves that pad and ends sleeping on it. With no free pad
/// there is no plan.
pub proof fn law_sleep_nearest_pad(w: SimWorld, pos: TileId, res: Set<ReservationKey>)
    ensures
        (forall|q: int| 0 <= q < w.fixtures@.len() ==> !free_pad(#[trigger] w.fixtures@[q], res)) ==> sleep_m(
            &w,
            pos,
            fresh_state(res),
        ) is Err,
        sleep_m(&w, pos, fresh_state(res)) is Ok ==> exists|k: int|
            0 <= k < w.fixtures@.len() && #[trigger] nearest_pad_plan(
                w.fixtures@,
                pos,
                res,
                k,
                sleep_m(&w, pos, fresh_state(res))->Ok_0,
            ),
{
    let fs = w.fixtures@;
    let a = fresh_state(res);
    lemma_pad_pick(fs, pos, res, fs.len() as int);
    if pad_pick(fs, pos, res, fs.len() as int) is None {
        assert(sleep_m(&w, pos, a) is Err);
    }
    if sleep_m(&w, pos, a) is Ok {
        let k = pad_pick(fs, pos, res, fs.len() as int)->Some_0;
        let f = fs[k];
        let b = move_adj_m(a, pos, f.pos)->Ok_0;
        let c = reserve_m(b, ReservationKey::Fixture(f.fixture.id))->Ok_0;
        let st = push_m(c, ToilModel::Sleep(f.fixture.id));
        assert(sleep_m(&w, pos, a)->Ok_0 == st);
        assert(st.keys[st.keys.len() - 1] == ReservationKey::Fixture(f.fixture.id));
        assert(nearest_pad_plan(w.fixtures@, pos, res, k, sleep_m(&w, pos, a)->Ok_0));
    }
}

/// Plan `st` ends sleeping on fixture `k` of `fs`, a free sleeping pad it has
/// reserved, and no free pad is nearer to `pos` (in steps along the grid) than
/// it, nor as near and listed before it.
pub open spec fn nearest_pad_plan(fs: Seq<FixtureEntity>, pos: TileId, res: Set<ReservationKey>, k: int, st: PlanState) -> bool {
    let f = fs[k];
    &&& free_pad(f, res)
    &&& st.toils.len() > 0
    &&& st.toils.last() == ToilModel::Sleep(f.fixture.id)
    &&& st.keys.contains(ReservationKey::Fixture(f.fixture.id))
    &&& forall|q: int|
        0 <= q < fs.len() && free_pad(#[trigger] fs[q], res) ==> grid_steps(pos, f.pos) <= grid_steps(pos, fs[q].pos)
    &&& forall|q: int|
        0 <= q < k && free_pad(#[trigger] fs[q], res) ==> grid_steps(pos, f.pos) < grid_steps(pos, fs[q].pos)
}

/// A plan for a pawn at `pos` to sleep (`sleep_m`).
pub fn build_sleep_plan(world: &SimWorld, pos: TileId, res: &mut Reservations) -> (r: Result<Plan, String>)
    requires
        world.wf(),
        coords_bounded(world),
        tile_bounded(pos),
    ensures
        built(r, sleep_m(world, pos, fresh_state(old(res)@)), old(res)@, final(res)),
        r matches Ok(p) ==> takes_free_keys(old(res)@, plan_state(&p, final(res))),
{
    let mut best: Option<usize> = None;
    let mut i: usize = 0;
    while i < world.fixtures.len()
        invariant
            i <= world.fixtures@.len(),
            coords_bounded(world),
            tile_bounded(pos),
            match pad_pick(world.fixtures@, pos, res@, i as int) {
                Some(j) => 0 <= j < i && best == Some(j as usize),
                None => best is None,
            },
        decreases world.fixtures@.len() - i,
    {
        let f = &world.fixtures[i];
        if f.fixture.kind == FixtureKind::SleepingPad && !res.is_reserved(ReservationKey::Fixture(f.fixture.id)) {
            proof {
                assert(tile_bounded(world.fixtures@[i as int].pos));
            }
            let d = manhattan_wide(pos, f.pos);
            let better = match best {
                Some(j) => d < manhattan_wide(pos, world.fixtures[j].pos),
                None => true,
            };
            if better {
                best = Some(i);
            }
        }
        i = i + 1;
    }
    let mut e = String::from_str("No sleeping pad found for pawn ");
    let fi = match best {
        None => {
            let t = tile_text(pos.x, pos.y);
            e.append(t.as_str());
            return Err(e);
        },
        Some(j) => j,
    };
    let pad_pos = world.fixtures[fi].pos;
    let pad_id = world.fixtures[fi].fixture.id;
    proof {
        assert(tile_bounded(world.fixtures@[fi as int].pos));
    }
    let mut plan = Plan::new();
    let ghost a = plan_state(&plan, res);
    proof {
        lemma_new_plan_fresh(&plan, res);
    }
    match plan.move_to_adj(res, pos, pad_pos) {
        Ok(()) => {},
        Err(e) => {
            proof {
                lemma_release_restores(a, plan_state(&plan, res));
            }
            plan.reservations.release_all(res);
            return Err(e);
        },
    }
    let ghost b = plan_state(&plan, res);
    match plan.reserve_key(res, ReservationKey::Fixture(pad_id)) {
        Ok(()) => {},
        Err(e) => {
            proof {
                lemma_extends_trans(a, b, plan_state(&plan, res));
                lemma_release_restores(a, plan_state(&plan, res));
            }
            plan.reservations.release_all(res);
            return Err(e);
        },
    }
    plan.push_toil(ToilKind::Sleep { fixture_id: pad_id });
    proof {
        lemma_extends_trans(a, b, plan_state(&plan, res));
        lemma_fresh_extends(old(res)@, plan_state(&plan, res));
    }
    Ok(plan)
}

/// Where the pawn would go to get an item of kind `k`: where it stands when it
/// carries one, else where the nearer free item lies; `None` when there is none
/// (or its record is missing).
pub open spec fn item_pos_for(w: &SimWorld, pi: int, k: ItemKind, res: Set<ReservationKey>) -> Option<TileId> {
    let p = w.pawns@[pi];
    if ids_of_kind(p.pawn.inventory@, k).len() > 0 {
        Some(p.pos)
    } else {
        match closer(
            nearest_ground(w.items@, k, p.pos, res, w.items@.len() as int),
            nearest_fixture(w.fixtures@, k, p.pos, res, w.fixtures@.len() as int),
        ) {
            None => None,
            Some(found) => match item_pos_m(w, found.0, p.pos) {
                Ok(t) => Some(t),
                Err(_) => None,
            },
        }
    }
}

/// Where pawn `pi` would go to get an item of kind `k` (`item_pos_for`).
pub fn neartest_item_pos(world: &SimWorld, pi: usize, k: ItemKind, res: &Reservations) -> (r: Option<TileId>)
    requires
        plannable(world, pi as int),
    ensures
        r == item_pos_for(world, pi as int, k, res@),
{
    let pos = world.pawns[pi].pos;
    proof {
        assert(tile_bounded(world.pawns@[pi as int].pos));
    }
    if world.pawns[pi].pawn.inventory.find(k).is_some() {
        return Some(pos);
    }
    let on_ground = nearest_item_on_ground(k, pos, world, res);
    let in_fixture = nearest_fixture_with_item(k, pos, world, res);
    match closer_option_item_locator(on_ground, in_fixture) {
        None => None,
        Some((id, _)) => match locate_item(world, id, pos) {
            Ok(t) => Some(t),
            Err(_) => None,
        },
    }
}


// ---- tasks ----

/// The error text of a harvest whose bush is not ready.
pub open spec fn not_ready_msg(f: FixtureId) -> Seq<char> {
    "Fixture "@ + wrapped_number("FixtureId"@, f.0 as nat) + " is not ready to harvest"@
}

/// Harvesting fixture `f`: it must be ready (countdown at 0); reserve it, walk
/// next to it, harvest.
pub open spec fn harvest_m(w: &SimWorld, pi: int, f: FixtureId, a: PlanState) -> Result<PlanState, Seq<char>> {
    if !has_fixture(w.fixtures@, f) {
        Err(fixture_missing_msg(f))
    } else {
        let fe = w.fixtures@[fixture_at(w.fixtures@, f)];
        match fe.harvestable {
            None => Err(not_ready_msg(f)),
            Some(h) => if h.countdown > 0 {
                Err(not_ready_msg(f))
            } else {
                match reserve_m(a, ReservationKey::Fixture(f)) {
                    Err(e) => Err(e),
                    Ok(b) => match move_adj_m(b, w.pawns@[pi].pos, fe.pos) {
                        Err(e) => Err(e),
                        Ok(c) => Ok(push_m(c, ToilModel::Harvest(f))),
                    },
                }
            },
        }
    }
}

/// Planting an item of kind `k` on `tile`: the tile must hold no fixture; get a
/// seed, walk from where it is held to next to the tile, plant.
pub open spec fn plant_m(w: &SimWorld, pi: int, tile: TileId, k: ItemKind, a: PlanState) -> Result<PlanState, Seq<char>> {
    match w.fixture_tiles.at(tile) {
        Some(fid) => Err(
            "Tile "@ + tile_debug(tile.x as int, tile.y as int) + " is not a plantable tile. Contains fixture "@
                + wrapped_number("FixtureId"@, fid.0 as nat),
        ),
        None => match acquire_m(w, pi, k, a) {
            Err(e) => Err(e),
            Ok((b, seed, sp)) => match move_adj_m(b, sp, tile) {
                Err(e) => Err(e),
                Ok(c) => Ok(push_m(c, ToilModel::Plant(seed, tile))),
            },
        },
    }
}

/// Reserving `ids[m..]` in order.
pub open spec fn reserve_ids_m(a: PlanState, ids: Seq<ItemId>, m: int) -> Result<PlanState, Seq<char>>
    decreases ids.len() - m,
{
    if m >= ids.len() || m < 0 {
        Ok(a)
    } else {
        match reserve_m(a, ReservationKey::Item(ids[m])) {
            Ok(b) => reserve_ids_m(b, ids, m + 1),
            Err(e) => Err(e),
        }
    }
}

/// Reserving, for each required kind from `req[j..]` in order, every item of that
/// kind in `inv`.
pub open spec fn reserve_kinds_m(a: PlanState, inv: Seq<(ItemId, ItemKind)>, req: Seq<(ItemKind, u32)>, j: int) -> Result<PlanState, Seq<char>>
    decreases req.len() - j,
{
    if j >= req.len() || j < 0 {
        Ok(a)
    } else {
        match reserve_ids_m(a, ids_of_kind(inv, req[j].0), 0) {
            Ok(b) => reserve_kinds_m(b, inv, req, j + 1),
            Err(e) => Err(e),
        }
    }
}

/// The first requirement from `req[j..]` that `inv` holds too few items for.
pub open spec fn first_short(inv: Seq<(ItemId, ItemKind)>, req: Seq<(ItemKind, u32)>, j: int) -> Option<int>
    decreases req.len() - j,
{
    if j >= req.len() || j < 0 {
        None
    } else if ids_of_kind(inv, req[j].0).len() < req[j].1 {
        Some(j)
    } else {
        first_short(inv, req, j + 1)
    }
}

/// A building spec the planner accepts: it needs some items, each in a positive
/// quantity.
pub open spec fn build_spec_valid(b: BuildingSpec) -> bool {
    &&& b.required_items@.len() > 0
    &&& forall|j: int| 0 <= j < b.required_items@.len() ==> #[trigger] b.required_items@[j].1 > 0
}

/// Building `b`: with no fixture at its top-left tile, walk next to it and place a
/// construction site; with a construction site there, reserve it and the items
/// it holds, then fetch the first material it lacks and store it there, or, when
/// it lacks none, walk next to it and build.
pub open spec fn build_m(w: &SimWorld, pi: int, b: BuildingSpec, a: PlanState) -> Result<PlanState, Seq<char>> {
    let pos = w.pawns@[pi].pos;
    match w.fixture_tiles.at(b.top_left) {
        None => match move_adj_m(a, pos, b.top_left) {
            Err(e) => Err(e),
            Ok(c) => Ok(
                push_m(
                    c,
                    ToilModel::PlaceConstructionSite(
                        b.top_left,
                        b.dim,
                        b.fixture_kind,
                        b.required_items@,
                        b.work_units,
                    ),
                ),
            ),
        },
        Some(fid) => if !has_fixture(w.fixtures@, fid) {
            Err(fixture_missing_msg(fid))
        } else {
            let site = w.fixtures@[fixture_at(w.fixtures@, fid)];
            let inv = site.fixture.inventory@;
            let req = b.required_items@;
            if site.fixture.kind != FixtureKind::ConstructionSite {
                Err(
                    "Tile "@ + tile_debug(b.top_left.x as int, b.top_left.y as int)
                        + " is not a valid build site. Contains fixture "@ + wrapped_number(
                        "FixtureId"@,
                        fid.0 as nat,
                    ),
                )
            } else {
                match reserve_m(a, ReservationKey::Fixture(fid)) {
                    Err(e) => Err(e),
                    Ok(c) => match reserve_kinds_m(c, inv, req, 0) {
                        Err(e) => Err("Failed to reserve items: "@ + e),
                        Ok(d) => match first_short(inv, req, 0) {
                            Some(j) => match acquire_m(w, pi, req[j].0, d) {
                                Err(e) => Err(e),
                                Ok((e2, id, ip)) => match move_adj_m(e2, ip, b.top_left) {
                                    Err(e) => Err(e),
                                    Ok(f2) => Ok(push_m(f2, ToilModel::StoreItem(id, fid))),
                                },
                            },
                            None => match move_adj_m(d, pos, b.top_left) {
                                Err(e) => Err(e),
                                Ok(f2) => Ok(push_m(f2, ToilModel::Build(fid))),
                            },
                        },
                    },
                }
            }
        },
    }
}

/// The plan for task spec `t` (`harvest_m`, `plant_m` or `build_m`).
pub open spec fn task_m(w: &SimWorld, pi: int, t: TaskSpec, a: PlanState) -> Result<PlanState, Seq<char>> {
    match t {
        TaskSpec::Harvest { to_harvest, .. } => harvest_m(w, pi, to_harvest, a),
        TaskSpec::Plant(tile, k) => plant_m(w, pi, tile, k, a),
        TaskSpec::Build(b) => build_m(w, pi, b, a),
    }
}

/// A task the planner accepts: build tasks have a valid spec.
pub open spec fn task_plannable(t: TaskSpec) -> bool {
    t matches TaskSpec::Build(b) ==> build_spec_valid(b)
}

/// Reserve `ids` for the plan, in order.
fn reserve_items(plan: &mut Plan, res: &mut Reservations, ids: &Vec<ItemId>) -> (r: Result<(), String>)
    ensures
        extends(plan_state(old(plan), old(res)), plan_state(final(plan), final(res))),
        match reserve_ids_m(plan_state(old(plan), old(res)), ids@, 0) {
            Ok(b) => r is Ok && plan_state(final(plan), final(res)) == b,
            Err(m) => r matches Err(e) && e@ == m,
        },
{
    let ghost a = plan_state(plan, res);
    proof {
        lemma_extends_refl(a);
    }
    let mut m: usize = 0;
    while m < ids.len()
        invariant
            m <= ids@.len(),
            extends(a, plan_state(plan, res)),
            reserve_ids_m(a, ids@, 0) == reserve_ids_m(plan_state(plan, res), ids@, m as int),
            a == plan_state(old(plan), old(res)),
        decreases ids@.len() - m,
    {
        let ghost before = plan_state(plan, res);
        match plan.reserve_key(res, ReservationKey::Item(ids[m])) {
            Ok(()) => {},
            Err(e) => {
                proof {
                    lemma_extends_trans(a, before, plan_state(plan, res));
                }
                return Err(e);
            },
        }
        proof {
            lemma_extends_trans(a, before, plan_state(plan, res));
        }
        m = m + 1;
    }
    Ok(())
}

/// A plan for pawn `pi` to carry out task `task` (`task_m`).
pub fn build_plan_for_task(world: &SimWorld, task: &Task, pi: usize, res: &mut Reservations) -> (r: Result<Plan, String>)
    requires
        plannable(world, pi as int),
        task_plannable(task.spec),
    ensures
        built(r, task_m(world, pi as int, task.spec, fresh_state(old(res)@)), old(res)@, final(res)),
        r matches Ok(p) ==> takes_free_keys(old(res)@, plan_state(&p, final(res))),
{
    let mut plan = Plan::new();
    let ghost a = plan_state(&plan, res);
    proof {
        lemma_new_plan_fresh(&plan, res);
    }
    let r = task_steps(world, &task.spec, pi, &mut plan, res);
    match r {
        Ok(()) => {
            proof {
                lemma_fresh_extends(old(res)@, plan_state(&plan, res));
            }
            Ok(plan)
        },
        Err(e) => {
            proof {
                lemma_release_restores(a, plan_state(&plan, res));
            }
            plan.reservations.release_all(res);
            Err(e)
        },
    }
}

/// Add to `plan` the toils of task spec `t` (`task_m`); on failure the plan may
/// hold part of them.
fn task_steps(world: &SimWorld, t: &TaskSpec, pi: usize, plan: &mut Plan, res: &mut Reservations) -> (r: Result<(), String>)
    requires
        plannable(world, pi as int),
        task_plannable(*t),
    ensures
        extends(plan_state(old(plan), old(res)), plan_state(final(plan), final(res))),
        match task_m(world, pi as int, *t, plan_state(old(plan), old(res))) {
            Ok(b) => r is Ok && plan_state(final(plan), final(res)) == b,
            Err(m) => r matches Err(e) && e@ == m,
        },
{
    let ghost a = plan_state(plan, res);
    proof {
        lemma_extends_refl(a);
        assert(tile_bounded(world.pawns@[pi as int].pos));
    }
    let pos = world.pawns[pi].pos;
    match t {
        TaskSpec::Harvest { to_harvest, .. } => {
            let f = *to_harvest;
            let fi = match world.find_fixture(f) {
                None => {
                    let mut e = String::from_str("Fixture ");
                    let n = wrapped_number_text("FixtureId", f.0);
                    e.append(n.as_str());
                    e.append(" not found");
                    return Err(e);
                },
                Some(fi) => fi,
            };
            let ready = match world.fixtures[fi].harvestable {
                None => false,
                Some(h) => h.countdown == 0,
            };
            if !ready {
                let mut e = String::from_str("Fixture ");
                let n = wrapped_number_text("FixtureId", f.0);
                e.append(n.as_str());
                e.append(" is not ready to harvest");
                return Err(e);
            }
            let fpos = world.fixtures[fi].pos;
            proof {
                assert(tile_bounded(world.fixtures@[fi as int].pos));
            }
            match plan.reserve_key(res, ReservationKey::Fixture(f)) {
                Ok(()) => {},
                Err(e) => {
                    return Err(e);
                },
            }
            let ghost b = plan_state(plan, res);
            match plan.move_to_adj(res, pos, fpos) {
                Ok(()) => {},
                Err(e) => {
                    proof {
                        lemma_extends_trans(a, b, plan_state(plan, res));
                    }
                    return Err(e);
                },
            }
            let ghost c = plan_state(plan, res);
            plan.push_toil(ToilKind::Harvest { fixture_id: f });
            proof {
                lemma_extends_trans(a, b, c);
            }
            Ok(())
        },
        TaskSpec::Plant(tile, k) => {
            match world.fixture_tiles.get(*tile) {
                Some(fid) => {
                    let mut e = String::from_str("Tile ");
                    let tt = tile_text(tile.x, tile.y);
                    e.append(tt.as_str());
                    e.append(" is not a plantable tile. Contains fixture ");
                    let n = wrapped_number_text("FixtureId", fid.0);
                    e.append(n.as_str());
                    return Err(e);
                },
                None => {},
            }
            let (seed, sp) = match build_acquire_item_plan(world, pi, *k, plan, res) {
                Ok(x) => x,
                Err(e) => {
                    return Err(e);
                },
            };
            let ghost b = plan_state(plan, res);
            proof {
                lemma_acquired_pos_bounded(world, pi as int, *k, a);
            }
            match plan.move_to_adj(res, sp, *tile) {
                Ok(()) => {},
                Err(e) => {
                    proof {
                        lemma_extends_trans(a, b, plan_state(plan, res));
                    }
                    return Err(e);
                },
            }
            let ghost c = plan_state(plan, res);
            plan.push_toil(ToilKind::Plant { seed_id: seed, tile_id: *tile });
            proof {
                lemma_extends_trans(a, b, c);
            }
            Ok(())
        },
        TaskSpec::Build(b) => build_steps(world, b, pi, plan, res),
    }
}

/// Where `acquire_m` has the pawn hold the item is a bounded tile.
proof fn lemma_acquired_pos_bounded(w: &SimWorld, pi: int, k: ItemKind, a: PlanState)
    requires
        plannable(w, pi),
    ensures
        acquire_m(w, pi, k, a) matches Ok((_, _, t)) ==> tile_bounded(t),
{
    assert(tile_bounded(w.pawns@[pi].pos));
    let p = w.pawns@[pi];
    let found = closer(
        nearest_ground(w.items@, k, p.pos, a.res, w.items@.len() as int),
        nearest_fixture(w.fixtures@, k, p.pos, a.res, w.fixtures@.len() as int),
    );
    if let Some(x) = found {
        if has_item(w.items@, x.0) {
            let ii = item_at(w.items@, x.0);
            match w.items@[ii].relation {
                ItemRelation::OnGround(t) => {
                    assert(tile_bounded(t));
                },
                ItemRelation::InFixture(f) => {
                    if has_fixture(w.fixtures@, f) {
                        assert(tile_bounded(w.fixtures@[fixture_at(w.fixtures@, f)].pos));
                    }
                },
                _ => {},
            }
        }
    }
}


/// Add to `plan` the toils of building `b` (`build_m`); on failure the plan may
/// hold part of them.
#[verifier::loop_isolation(false)]
fn build_steps(world: &SimWorld, b: &BuildingSpec, pi: usize, plan: &mut Plan, res: &mut Reservations) -> (r: Result<(), String>)
    requires
        plannable(world, pi as int),
        build_spec_valid(*b),
    ensures
        extends(plan_state(old(plan), old(res)), plan_state(final(plan), final(res))),
        match build_m(world, pi as int, *b, plan_state(old(plan), old(res))) {
            Ok(s) => r is Ok && plan_state(final(plan), final(res)) == s,
            Err(m) => r matches Err(e) && e@ == m,
        },
{
    let ghost a = plan_state(plan, res);
    proof {
        lemma_extends_refl(a);
        assert(tile_bounded(world.pawns@[pi as int].pos));
    }
    let pos = world.pawns[pi].pos;
    let top_left = b.top_left;
    let fid = match world.fixture_tiles.get(top_left) {
        None => {
            match plan.move_to_adj(res, pos, top_left) {
                Ok(()) => {},
                Err(e) => {
                    return Err(e);
                },
            }
            let ghost c = plan_state(plan, res);
            plan.push_toil(ToilKind::PlaceConstructionSite { building_spec: b.copy() });
            return Ok(());
        },
        Some(fid) => fid,
    };
    let si = match world.find_fixture(fid) {
        None => {
            let mut e = String::from_str("Fixture ");
            let n = wrapped_number_text("FixtureId", fid.0);
            e.append(n.as_str());
            e.append(" not found");
            return Err(e);
        },
        Some(si) => si,
    };
    if world.fixtures[si].fixture.kind != FixtureKind::ConstructionSite {
        let mut e = String::from_str("Tile ");
        let tt = tile_text(top_left.x, top_left.y);
        e.append(tt.as_str());
        e.append(" is not a valid build site. Contains fixture ");
        let n = wrapped_number_text("FixtureId", fid.0);
        e.append(n.as_str());
        return Err(e);
    }
    match plan.reserve_key(res, ReservationKey::Fixture(fid)) {
        Ok(()) => {},
        Err(e) => {
            return Err(e);
        },
    }
    let ghost c = plan_state(plan, res);
    proof {
        lemma_extends_refl(c);
    }
    let inv = &world.fixtures[si].fixture.inventory;
    let req = &b.required_items;
    let mut j: usize = 0;
    while j < req.len()
        invariant
            plannable(world, pi as int),
            j <= req@.len(),
            extends(a, plan_state(plan, res)),
            extends(c, plan_state(plan, res)),
            reserve_kinds_m(c, inv@, req@, 0) == reserve_kinds_m(plan_state(plan, res), inv@, req@, j as int),
            a == plan_state(old(plan), old(res)),
            extends(a, c),
        decreases req@.len() - j,
    {
        let ids = inv.of_kind(req[j].0);
        let ghost before = plan_state(plan, res);
        match reserve_items(plan, res, &ids) {
            Ok(()) => {},
            Err(e) => {
                proof {
                    lemma_extends_trans(a, before, plan_state(plan, res));
                    assert(ids@ == ids_of_kind(inv@, req@[j as int].0));
                    assert(reserve_kinds_m(before, inv@, req@, j as int) == Err::<PlanState, Seq<char>>(e@));
                }
                let mut m = String::from_str("Failed to reserve items: ");
                m.append(e.as_str());
                return Err(m);
            },
        }
        proof {
            lemma_extends_trans(a, before, plan_state(plan, res));
            lemma_extends_trans(c, before, plan_state(plan, res));
        }
        j = j + 1;
    }
    let ghost d = plan_state(plan, res);
    proof {
        assert(reserve_kinds_m(c, inv@, req@, 0) == Ok::<PlanState, Seq<char>>(d));
        assert(fixture_at(world.fixtures@, fid) == si);
        assert(reserve_m(a, ReservationKey::Fixture(fid)) == Ok::<PlanState, Seq<char>>(c));
    }
    let mut j: usize = 0;
    while j < req.len()
        invariant
            plannable(world, pi as int),
            j <= req@.len(),
            first_short(inv@, req@, 0) == first_short(inv@, req@, j as int),
            plan_state(plan, res) == d,
            extends(a, d),
            a == plan_state(old(plan), old(res)),
        decreases req@.len() - j,
    {
        let (k, qty) = req[j];
        let have = inv.of_kind(k).len();
        if (have as u64) < (qty as u64) {
            proof {
                assert(first_short(inv@, req@, 0) == Some(j as int));
            }
            let (item_id, ip) = match build_acquire_item_plan(world, pi, k, plan, res) {
                Ok(x) => x,
                Err(e) => {
                    proof {
                        lemma_extends_trans(a, d, plan_state(plan, res));
                    }
                    return Err(e);
                },
            };
            let ghost e2 = plan_state(plan, res);
            proof {
                lemma_acquired_pos_bounded(world, pi as int, k, d);
                lemma_extends_trans(a, d, e2);
            }
            match plan.move_to_adj(res, ip, top_left) {
                Ok(()) => {},
                Err(e) => {
                    proof {
                        lemma_extends_trans(a, e2, plan_state(plan, res));
                    }
                    return Err(e);
                },
            }
            let ghost f2 = plan_state(plan, res);
            plan.push_toil(ToilKind::StoreItem { item_id, target_fixture_id: fid });
            proof {
                lemma_extends_trans(a, e2, f2);
            }
            return Ok(());
        }
        j = j + 1;
    }
    proof {
        assert(first_short(inv@, req@, 0) == None::<int>);
    }
    match plan.move_to_adj(res, pos, top_left) {
        Ok(()) => {},
        Err(e) => {
            proof {
                lemma_extends_trans(a, d, plan_state(plan, res));
            }
            return Err(e);
        },
    }
    let ghost f2 = plan_state(plan, res);
    plan.push_toil(ToilKind::Build { fixture_id: fid });
    proof {
        lemma_extends_trans(a, d, f2);
    }
    Ok(())
}


/// Every task on the board is one the planner accepts.
pub open spec fn board_plannable(board: &TaskBoard) -> bool {
    forall|i: int| 0 <= i < board.tasks@.len() ==> task_plannable(#[trigger] board.tasks@[i].spec)
}

/// The error text for a task id that is not on the board.
pub open spec fn task_missing_msg(id: TaskId) -> Seq<char> {
    "Task "@ + wrapped_number("TaskId"@, id.0 as nat) + " not found"@
}

/// The plan for a job of kind `kind` for pawn `pi`.
pub open spec fn job_plan_m(w: &SimWorld, pi: int, kind: JobKind, a: PlanState) -> Result<PlanState, Seq<char>> {
    match kind {
        JobKind::Sleep => sleep_m(w, w.pawns@[pi].pos, a),
        JobKind::Eat => eat_m(w, pi, a),
        JobKind::Task(tid, _) => if has_task(w.task_board.tasks@, tid) {
            task_m(w, pi, w.task_board.tasks@[task_pos(w.task_board.tasks@, tid)].spec, a)
        } else {
            Err(task_missing_msg(tid))
        },
        JobKind::Idle => Err("No plan for none job"@),
    }
}

impl JobKind {
    /// A plan for pawn `pi` to carry out a job of this kind (`job_plan_m`).
    pub fn build_plan(&self, world: &SimWorld, pi: usize, res: &mut Reservations) -> (r: Result<Plan, String>)
        requires
            plannable(world, pi as int),
            board_plannable(&world.task_board),
        ensures
            built(r, job_plan_m(world, pi as int, *self, fresh_state(old(res)@)), old(res)@, final(res)),
            r matches Ok(p) ==> takes_free_keys(old(res)@, plan_state(&p, final(res))),
    {
        match self {
            JobKind::Sleep => {
                proof {
                    assert(tile_bounded(world.pawns@[pi as int].pos));
                }
                build_sleep_plan(world, world.pawns[pi].pos, res)
            },
            JobKind::Eat => build_eat_plan(world, pi, res),
            JobKind::Task(tid, _) => match world.task_board.find(*tid) {
                Some(ti) => build_plan_for_task(world, &world.task_board.tasks[ti], pi, res),
                None => {
                    let mut e = String::from_str("Task ");
                    let n = wrapped_number_text("TaskId", tid.0);
                    e.append(n.as_str());
                    e.append(" not found");
                    Err(e)
                },
            },
            JobKind::Idle => Err(String::from_str("No plan for none job")),
        }
    }
}

} // verus!
