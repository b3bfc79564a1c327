//! Typed simulation ids and the id index that allocates them.
use vstd::prelude::*;
use std::collections::BTreeMap;
use core::marker::PhantomData;

verus! {

broadcast use vstd::std_specs::btree::group_btree_axioms;

/// A typed id that is a thin wrapper over a `u64`.
pub trait SimId: Copy + Sized {
    /// The wrapped number.
    spec fn raw(&self) -> u64;

    fn from_u64(v: u64) -> (r: Self)
        ensures
            r.raw() == v,
    ;

    fn to_u64(self) -> (r: u64)
        ensures
            r == self.raw(),
    ;

    /// Two ids with the same number are the same id.
    proof fn lemma_raw_injective(a: Self, b: Self)
        requires
            a.raw() == b.raw(),
        ensures
            a == b,
    ;
}

/// Something that carries a typed id.
pub trait HasSimId {
    type Id: SimId;

    /// The id carried.
    spec fn sim_id(&self) -> Self::Id;

    fn id(&self) -> (r: Self::Id)
        ensures
            r == self.sim_id(),
    ;
}

/// An entity handle of the simulation world.
#[derive(Debug, Clone, Copy, PartialEq, Eq, Structural, PartialOrd, Ord, Hash)]
pub struct Entity(pub u64);

#[derive(Debug, Clone, Copy, PartialEq, Eq, Structural, PartialOrd, Ord, Hash, Default)]
pub struct PawnId(pub u64);

#[derive(Debug, Clone, Copy, PartialEq, Eq, Structural, PartialOrd, Ord, Hash, Default)]
pub struct ItemId(pub u64);

#[derive(Debug, Clone, Copy, PartialEq, Eq, Structural, PartialOrd, Ord, Hash, Default)]
pub struct TaskId(pub u64);

#[derive(Debug, Clone, Copy, PartialEq, Eq, Structural, PartialOrd, Ord, Hash, Default)]
pub struct FixtureId(pub u64);

impl SimId for PawnId {
    open spec fn raw(&self) -> u64 {
        self.0
    }

    fn from_u64(v: u64) -> (r: Self) {
        PawnId(v)
    }

    fn to_u64(self) -> (r: u64) {
        self.0
    }

    proof fn lemma_raw_injective(a: Self, b: Self) {
    }
}

impl SimId for ItemId {
    open spec fn raw(&self) -> u64 {
        self.0
    }

    fn from_u64(v: u64) -> (r: Self) {
        ItemId(v)
    }

    fn to_u64(self) -> (r: u64) {
        self.0
    }

    proof fn lemma_raw_injective(a: Self, b: Self) {
    }
}

impl SimId for TaskId {
    open spec fn raw(&self) -> u64 {
        self.0
    }

    fn from_u64(v: u64) -> (r: Self) {
        TaskId(v)
    }

    fn to_u64(self) -> (r: u64) {
        self.0
    }

    proof fn lemma_raw_injective(a: Self, b: Self) {
    }
}

impl SimId for FixtureId {
    open spec fn raw(&self) -> u64 {
        self.0
    }

    fn from_u64(v: u64) -> (r: Self) {
        FixtureId(v)
    }

    fn to_u64(self) -> (r: u64) {
        self.0
    }

    proof fn lemma_raw_injective(a: Self, b: Self) {
    }
}

impl FixtureId {
    /// A placeholder id, replaced when the fixture is spawned.
    pub fn dummy() -> (r: Self)
        ensures
            r.0 == 0,
    {
        FixtureId(0)
    }
}

/// The greatest key of a non-empty finite map.
pub open spec fn max_key<V>(m: Map<u64, V>) -> u64 {
    choose|k: u64| m.contains_key(k) && forall|j: u64| m.contains_key(j) ==> j <= k
}

/// The number `alloc_id(None)` hands out: one past the greatest id, and never below
/// 1000 (1001 for an empty index).
pub open spec fn next_alloc<V>(m: Map<u64, V>) -> u64 {
    if m.dom().is_empty() {
        1001
    } else if max_key(m) + 1 > 1000 {
        (max_key(m) + 1) as u64
    } else {
        1000
    }
}

/// The id an index holding `keys` allocates next (`next_alloc` over the ids
/// alone).
pub open spec fn next_free(keys: Set<u64>) -> u64 {
    if keys.is_empty() {
        1001
    } else {
        let mx = choose|k: u64| keys.contains(k) && forall|j: u64| keys.contains(j) ==> j <= k;
        if mx + 1 > 1000 {
            (mx + 1) as u64
        } else {
            1000
        }
    }
}

/// `next_alloc` depends on the ids of the index alone.
pub proof fn lemma_next_alloc_dom<V>(m: Map<u64, V>)
    ensures
        next_alloc(m) == next_free(m.dom()),
{
    let f = |k: u64| m.contains_key(k) && forall|j: u64| m.contains_key(j) ==> j <= k;
    let g = |k: u64| m.dom().contains(k) && forall|j: u64| m.dom().contains(j) ==> j <= k;
    assert(f =~= g);
}

/// The greatest key of the map, `None` when it is empty (`BTreeMap::last_key_value`).
#[verifier::external_body]
fn last_key(m: &BTreeMap<u64, Option<Entity>>) -> (r: Option<u64>)
    ensures
        r is None <==> m@.dom().is_empty(),
        r matches Some(k) ==> m@.contains_key(k) && forall|j: u64|
            m@.contains_key(j) ==> j <= k,
{
    match m.last_key_value() {
        Some((k, _)) => Some(*k),
        None => None,
    }
}

/// Map from typed id to the entity that carries it (`None` while the id is
/// registered but not yet attached to an entity).
#[derive(Debug)]
pub struct IdIndex<T> {
    pub entries: BTreeMap<u64, Option<Entity>>,
    pub marker: PhantomData<T>,
}

impl<T: SimId> IdIndex<T> {
    /// The ids registered, by number.
    pub open spec fn view(&self) -> Map<u64, Option<Entity>> {
        self.entries@
    }

    /// Whether `id` is registered.
    pub open spec fn has(&self, id: T) -> bool {
        self.view().contains_key(id.raw())
    }

    /// An empty index.
    pub fn new() -> (r: Self)
        ensures
            r.view() == Map::<u64, Option<Entity>>::empty(),
    {
        IdIndex { entries: BTreeMap::new(), marker: PhantomData }
    }

    /// Register an id that is not registered yet.
    pub fn register(&mut self, provided: T)
        requires
            !old(self).has(provided),
        ensures
            final(self).view() == old(self).view().insert(provided.raw(), None),
    {
        let k = provided.to_u64();
        self.entries.insert(k, None);
    }

    /// Register `provided`, or a fresh id when `None`: one past the greatest
    /// registered id, and never below 1000.
    pub fn alloc_id(&mut self, provided: Option<T>) -> (r: T)
        requires
            provided matches Some(id) ==> !old(self).has(id),
            provided is None ==> !old(self).view().contains_key(u64::MAX),
        ensures
            provided matches Some(id) ==> r == id,
            provided is None ==> r.raw() == next_alloc(old(self).view()),
            provided is None ==> r.raw() >= 1000,
            provided is None ==> forall|k: u64| old(self).view().contains_key(k) ==> k < r.raw(),
            provided is None ==> r.raw() <= 1001 || old(self).view().contains_key((r.raw() - 1) as u64),
            !old(self).view().contains_key(r.raw()),
            final(self).view() == old(self).view().insert(r.raw(), None),
    {
        if let Some(id) = provided {
            self.register(id);
            return id;
        }
        let last = match last_key(&self.entries) {
            Some(k) => k,
            None => 1000,
        };
        let next = if last + 1 > 1000 { last + 1 } else { 1000 };
        let id = T::from_u64(next);
        proof {
            if !self.view().dom().is_empty() {
                let k = last;
                assert(self.view().contains_key(k) && forall|j: u64|
                    self.view().contains_key(j) ==> j <= k);
                let mk = max_key(self.view());
                assert(mk == k);
            }
        }
        self.entries.insert(next, None);
        id
    }

    /// Detach `id` from its entity; the id stays registered.
    pub fn remove(&mut self, id: T)
        requires
            old(self).has(id),
        ensures
            final(self).view() == old(self).view().insert(id.raw(), None),
    {
        let k = id.to_u64();
        self.entries.insert(k, None);
    }

    /// Attach `id` to entity `e`; an id already attached to another entity is refused.
    pub fn insert(&mut self, id: T, e: Entity)
        requires
            old(self).has(id) && old(self).view()[id.raw()] is Some ==> old(self).view()[id.raw()]
                == Some(e),
        ensures
            final(self).view() == old(self).view().insert(id.raw(), Some(e)),
    {
        let k = id.to_u64();
        self.entries.insert(k, Some(e));
    }

    /// The entity that carries `id`.
    pub fn get(&self, id: &T) -> (r: Entity)
        requires
            self.has(*id),
            self.view()[id.raw()] is Some,
        ensures
            Some(r) == self.view()[id.raw()],
    {
        let k = id.to_u64();
        let slot = self.entries.get(&k).unwrap();
        slot.unwrap()
    }

    /// The entry of `id`: `None` when it is not registered.
    pub fn lookup(&self, id: &T) -> (r: Option<Option<Entity>>)
        ensures
            r is Some <==> self.has(*id),
            r matches Some(e) ==> e == self.view()[id.raw()],
    {
        let k = id.to_u64();
        match self.entries.get(&k) {
            Some(e) => Some(*e),
            None => None,
        }
    }

    /// Whether the number `k` is registered.
    pub fn contains_raw(&self, k: u64) -> (r: bool)
        ensures
            r == self.view().contains_key(k),
    {
        self.entries.contains_key(&k)
    }

    /// Forget every id.
    pub fn clear(&mut self)
        ensures
            final(self).view() == Map::<u64, Option<Entity>>::empty(),
    {
        self.entries.clear();
    }
}

} // verus!
