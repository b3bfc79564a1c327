//! Pawns, items and fixtures of the game world.
use vstd::prelude::*;
use crate::fixed_point::{Q40p24, scale};
use crate::grid::TileId;
use crate::ids::{FixtureId, HasSimId, ItemId, PawnId};
use crate::text::{before_colon, str_eq};

verus! {

/// Kinds of items.
#[derive(Debug, Clone, Copy, PartialEq, Eq, Structural, Hash)]
pub enum ItemKind {
    Berry,
    Wood,
    Nails,
}

/// Kinds of fixtures.
#[derive(Debug, Clone, Copy, PartialEq, Eq, Structural, Hash)]
pub enum FixtureKind {
    ConstructionSite,
    SleepingPad,
    Stockpile,
    BerryBush,
    Cabin,
}

/// The text before the first ':' of `s`, or all of `s`.
pub open spec fn kind_word(s: Seq<char>) -> Seq<char> {
    if exists|i: int| 0 <= i < s.len() && s[i] == ':' {
        s.take(choose|i: int| 0 <= i < s.len() && s[i] == ':' && forall|j: int| 0 <= j < i ==> s[j] != ':')
    } else {
        s
    }
}

/// The item kind a word names.
pub open spec fn item_kind_named(w: Seq<char>) -> Option<ItemKind> {
    if w == "Berry"@ {
        Some(ItemKind::Berry)
    } else if w == "Wood"@ {
        Some(ItemKind::Wood)
    } else if w == "Nails"@ {
        Some(ItemKind::Nails)
    } else {
        None
    }
}

/// The fixture kind a word names (only kinds that scenarios may place).
pub open spec fn fixture_kind_named(w: Seq<char>) -> Option<FixtureKind> {
    if w == "SleepingPad"@ {
        Some(FixtureKind::SleepingPad)
    } else if w == "Stockpile"@ {
        Some(FixtureKind::Stockpile)
    } else if w == "BerryBush"@ {
        Some(FixtureKind::BerryBush)
    } else {
        None
    }
}

/// The variant's name, as `Debug` writes it.
pub open spec fn item_kind_text(k: ItemKind) -> Seq<char> {
    match k {
        ItemKind::Berry => "Berry"@,
        ItemKind::Wood => "Wood"@,
        ItemKind::Nails => "Nails"@,
    }
}

impl ItemKind {
    /// The variant's name, as `Debug` writes it.
    pub fn name(&self) -> (r: &'static str)
        ensures
            r@ == item_kind_text(*self),
    {
        match self {
            ItemKind::Berry => "Berry",
            ItemKind::Wood => "Wood",
            ItemKind::Nails => "Nails",
        }
    }

    /// Nutrition of the item when eaten, if it is food.
    pub fn has_nutrition(&self) -> (r: Option<Q40p24>)
        ensures
            r == match self {
                ItemKind::Berry => Some(Q40p24(scale() as i64)),
                _ => None::<Q40p24>,
            },
    {
        match self {
            ItemKind::Berry => Some(Q40p24::one()),
            ItemKind::Wood | ItemKind::Nails => None,
        }
    }

    /// The fixture that grows when the item is planted.
    pub fn plantable_fixture(&self) -> (r: Option<FixtureKind>)
        ensures
            r == match self {
                ItemKind::Berry => Some(FixtureKind::BerryBush),
                _ => None::<FixtureKind>,
            },
    {
        match self {
            ItemKind::Berry => Some(FixtureKind::BerryBush),
            ItemKind::Wood | ItemKind::Nails => None,
        }
    }

    /// Parse "Berry", "Wood" or "Nails", ignoring anything from the first ':' on.
    pub fn parse(s: &str) -> (r: Result<ItemKind, String>)
        ensures
            match item_kind_named(kind_word(s@)) {
                Some(k) => r == Ok::<ItemKind, String>(k),
                None => r matches Err(e) && e@ == "Invalid ItemKind: "@ + kind_word(s@),
            },
    {
        let w = before_colon(s);
        proof {
            reveal_strlit("Berry");
            reveal_strlit("Wood");
            reveal_strlit("Nails");
        }
        if str_eq(w, "Berry") {
            Ok(ItemKind::Berry)
        } else if str_eq(w, "Wood") {
            Ok(ItemKind::Wood)
        } else if str_eq(w, "Nails") {
            Ok(ItemKind::Nails)
        } else {
            let mut e = String::from_str("Invalid ItemKind: ");
            e.append(w);
            Err(e)
        }
    }
}

/// The variant's name, as `Display` writes it.
pub open spec fn fixture_kind_text(k: FixtureKind) -> Seq<char> {
    match k {
        FixtureKind::ConstructionSite => "ConstructionSite"@,
        FixtureKind::SleepingPad => "SleepingPad"@,
        FixtureKind::Stockpile => "Stockpile"@,
        FixtureKind::BerryBush => "BerryBush"@,
        FixtureKind::Cabin => "Cabin"@,
    }
}

impl FixtureKind {
    /// Parse "SleepingPad", "Stockpile" or "BerryBush", ignoring anything from the
    /// first ':' on.
    pub fn parse(s: &str) -> (r: Result<FixtureKind, String>)
        ensures
            match fixture_kind_named(kind_word(s@)) {
                Some(k) => r == Ok::<FixtureKind, String>(k),
                None => r matches Err(e) && e@ == "Invalid FixtureKind: "@ + kind_word(s@),
            },
    {
        let w = before_colon(s);
        proof {
            reveal_strlit("SleepingPad");
            reveal_strlit("Stockpile");
            reveal_strlit("BerryBush");
        }
        if str_eq(w, "SleepingPad") {
            Ok(FixtureKind::SleepingPad)
        } else if str_eq(w, "Stockpile") {
            Ok(FixtureKind::Stockpile)
        } else if str_eq(w, "BerryBush") {
            Ok(FixtureKind::BerryBush)
        } else {
            let mut e = String::from_str("Invalid FixtureKind: ");
            e.append(w);
            Err(e)
        }
    }

    /// The variant's name, as `Display` writes it.
    pub fn name(&self) -> (r: &'static str)
        ensures
            r@ == fixture_kind_text(*self),
    {
        match self {
            FixtureKind::ConstructionSite => "ConstructionSite",
            FixtureKind::SleepingPad => "SleepingPad",
            FixtureKind::Stockpile => "Stockpile",
            FixtureKind::BerryBush => "BerryBush",
            FixtureKind::Cabin => "Cabin",
        }
    }
}

/// The entries of `s` whose id is not `id`, in order.
pub open spec fn without_id(s: Seq<(ItemId, ItemKind)>, id: ItemId) -> Seq<(ItemId, ItemKind)>
    decreases s.len(),
{
    if s.len() == 0 {
        s
    } else if s.last().0 == id {
        without_id(s.drop_last(), id)
    } else {
        without_id(s.drop_last(), id).push(s.last())
    }
}

/// The ids of the entries of kind `k`, in order.
pub open spec fn ids_of_kind(s: Seq<(ItemId, ItemKind)>, k: ItemKind) -> Seq<ItemId>
    decreases s.len(),
{
    if s.len() == 0 {
        Seq::empty()
    } else if s.last().1 == k {
        ids_of_kind(s.drop_last(), k).push(s.last().0)
    } else {
        ids_of_kind(s.drop_last(), k)
    }
}

/// Whether some entry has id `id`.
pub open spec fn has_id(s: Seq<(ItemId, ItemKind)>, id: ItemId) -> bool {
    exists|i: int| 0 <= i < s.len() && s[i].0 == id
}

/// The items a pawn or fixture holds, with their kinds, in the order they came.
#[derive(Debug, Clone, PartialEq, Eq, Default)]
pub struct Inventory(pub Vec<(ItemId, ItemKind)>);

impl Inventory {
    pub open spec fn view(&self) -> Seq<(ItemId, ItemKind)> {
        self.0@
    }

    /// An empty inventory.
    pub fn new() -> (r: Self)
        ensures
            r@ == Seq::<(ItemId, ItemKind)>::empty(),
    {
        Inventory(Vec::new())
    }

    /// A copy with the same entries.
    pub fn copy(&self) -> (r: Self)
        ensures
            r@ == self@,
    {
        let mut out: Vec<(ItemId, ItemKind)> = Vec::new();
        let mut i: usize = 0;
        while i < self.0.len()
            invariant
                i <= self.0@.len(),
                out@ == self.0@.take(i as int),
            decreases self.0@.len() - i,
        {
            out.push(self.0[i]);
            i = i + 1;
            assert(out@ =~= self.0@.take(i as int));
        }
        assert(out@ =~= self.0@);
        Inventory(out)
    }

    /// Append an item.
    pub fn add(&mut self, item: (ItemId, ItemKind))
        ensures
            final(self)@ == old(self)@.push(item),
    {
        self.0.push(item);
    }

    /// Drop every entry with id `item_id`.
    pub fn remove(&mut self, item_id: &ItemId)
        ensures
            final(self)@ == without_id(old(self)@, *item_id),
    {
        let mut kept: Vec<(ItemId, ItemKind)> = Vec::new();
        let mut i: usize = 0;
        while i < self.0.len()
            invariant
                i <= self.0@.len(),
                self.0@ == old(self).0@,
                kept@ == without_id(self.0@.take(i as int), *item_id),
            decreases self.0@.len() - i,
        {
            assert(self.0@.take(i as int + 1).drop_last() =~= self.0@.take(i as int));
            let e = self.0[i];
            if e.0.0 != item_id.0 {
                kept.push(e);
            }
            i = i + 1;
        }
        assert(self.0@.take(self.0@.len() as int) =~= self.0@);
        self.0 = kept;
    }

    /// Whether an entry has id `item_id`.
    pub fn contains(&self, item_id: &ItemId) -> (r: bool)
        ensures
            r == has_id(self@, *item_id),
    {
        let mut i: usize = 0;
        while i < self.0.len()
            invariant
                i <= self.0@.len(),
                forall|j: int| 0 <= j < i ==> self.0@[j].0 != *item_id,
            decreases self.0@.len() - i,
        {
            if self.0[i].0.0 == item_id.0 {
                return true;
            }
            i = i + 1;
        }
        false
    }

    /// The first item of kind `item_kind`.
    pub fn find(&self, item_kind: ItemKind) -> (r: Option<ItemId>)
        ensures
            r == if ids_of_kind(self@, item_kind).len() > 0 {
                Some(ids_of_kind(self@, item_kind)[0])
            } else {
                None::<ItemId>
            },
    {
        let ids = self.of_kind(item_kind);
        if ids.len() > 0 {
            Some(ids[0])
        } else {
            None
        }
    }

    /// The ids of the items of kind `item_kind`, in order.
    pub fn of_kind(&self, item_kind: ItemKind) -> (r: Vec<ItemId>)
        ensures
            r@ == ids_of_kind(self@, item_kind),
    {
        let mut out: Vec<ItemId> = Vec::new();
        let mut i: usize = 0;
        while i < self.0.len()
            invariant
                i <= self.0@.len(),
                out@ == ids_of_kind(self.0@.take(i as int), item_kind),
            decreases self.0@.len() - i,
        {
            assert(self.0@.take(i as int + 1).drop_last() =~= self.0@.take(i as int));
            let e = self.0[i];
            if e.1 == item_kind {
                out.push(e.0);
            }
            i = i + 1;
        }
        assert(self.0@.take(self.0@.len() as int) =~= self.0@);
        out
    }
}

/// Removing an id leaves no entry with that id and keeps every other entry.
pub proof fn lemma_without_id(s: Seq<(ItemId, ItemKind)>, id: ItemId)
    ensures
        !has_id(without_id(s, id), id),
        forall|e: (ItemId, ItemKind)| e.0 != id ==> (without_id(s, id).contains(e) <==> s.contains(e)),
        without_id(s, id).len() <= s.len(),
    decreases s.len(),
{
    if s.len() > 0 {
        lemma_without_id(s.drop_last(), id);
        let r = without_id(s.drop_last(), id);
        assert forall|e: (ItemId, ItemKind)| e.0 != id implies (without_id(s, id).contains(e) <==> s.contains(e)) by {
            if s.last().0 != id {
                lemma_push_contains(r, s.last(), e);
            }
            assert(s.contains(e) <==> (s.drop_last().contains(e) || e == s.last())) by {
                if s.contains(e) {
                    let k = choose|k: int| 0 <= k < s.len() && s[k] == e;
                    if k < s.len() - 1 {
                        assert(s.drop_last()[k] == e);
                    }
                }
            }
        }
        if s.last().0 != id {
            assert forall|i: int| 0 <= i < r.push(s.last()).len() implies r.push(s.last())[i].0 != id by {
                if i < r.len() {
                    assert(r.push(s.last())[i] == r[i]);
                }
            }
        }
    }
}

pub(crate) proof fn lemma_push_contains<A>(r: Seq<A>, x: A, e: A)
    ensures
        r.push(x).contains(e) <==> (r.contains(e) || e == x),
{
    if r.push(x).contains(e) {
        let k = choose|k: int| 0 <= k < r.push(x).len() && r.push(x)[k] == e;
        if k < r.len() {
            assert(r[k] == e);
        }
    }
    if r.contains(e) {
        let k = choose|k: int| 0 <= k < r.len() && r[k] == e;
        assert(r.push(x)[k] == e);
    }
    if e == x {
        assert(r.push(x)[r.len() as int] == e);
    }
}

/// Pawns. Sleep and hunger are "fullness" meters: 100 is full.
#[derive(Debug, Clone, PartialEq, Eq)]
pub struct Pawn {
    pub id: PawnId,
    pub inventory: Inventory,
    pub sleep: Q40p24,
    pub hunger: Q40p24,
}

/// Items. An item is either on the ground (its tile in the item tile index),
/// carried by a pawn (listed in the pawn's inventory) or stored in a fixture
/// (listed in the fixture's inventory).
#[derive(Debug, Clone, PartialEq, Eq)]
pub struct Item {
    pub id: ItemId,
    pub kind: ItemKind,
    pub qty: u32,
}

/// Where an item is.
#[derive(Debug, Clone, Copy, PartialEq, Eq, Structural)]
pub enum ItemRelation {
    CarriedBy(PawnId),
    InFixture(FixtureId),
    OnGround(TileId),
}

/// Fixtures.
#[derive(Debug, Clone, PartialEq, Eq)]
pub struct Fixture {
    pub id: FixtureId,
    pub kind: FixtureKind,
    pub inventory: Inventory,
}

/// Ticks until harvest is ready, and how many harvests have completed.
#[derive(Debug, Clone, Copy, PartialEq, Eq, Structural)]
pub struct Harvestable {
    pub countdown: u32,
    pub seq_num: u32,
}

/// A building under construction: what it becomes and how many work units are left.
#[derive(Debug, PartialEq, Eq)]
pub struct ConstructionSite {
    pub building_spec: crate::tasks::BuildingSpec,
    pub work_left: u32,
}

/// An item together with where it is.
#[derive(Debug, Clone)]
pub struct ItemJoined {
    pub relation: ItemRelation,
    pub pos: TileId,
    pub item: Item,
}

impl HasSimId for Pawn {
    type Id = PawnId;

    open spec fn sim_id(&self) -> PawnId {
        self.id
    }

    fn id(&self) -> (r: PawnId) {
        self.id
    }
}

impl HasSimId for Item {
    type Id = ItemId;

    open spec fn sim_id(&self) -> ItemId {
        self.id
    }

    fn id(&self) -> (r: ItemId) {
        self.id
    }
}

impl HasSimId for Fixture {
    type Id = FixtureId;

    open spec fn sim_id(&self) -> FixtureId {
        self.id
    }

    fn id(&self) -> (r: FixtureId) {
        self.id
    }
}

} // verus!
