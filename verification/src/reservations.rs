//! Reservations of items, tiles and fixtures, so that two plans do not claim
//! the same thing.
use vstd::prelude::*;
use dashmap::DashSet;
use crate::grid::TileId;
use crate::ids::{FixtureId, ItemId};
use crate::text::{tile_debug, tile_text, wrapped_number, wrapped_number_text};

verus! {

/// What can be reserved.
#[derive(Debug, Clone, Copy, PartialEq, Eq, Structural, Hash)]
pub enum ReservationKey {
    Item(ItemId),
    Tile(TileId),
    Fixture(FixtureId),
}

/// A reservation key as a tuple of integers: a tag, an id, and a tile.
pub type KeyCode = (u8, u64, i32, i32);

pub open spec fn key_code(k: ReservationKey) -> KeyCode {
    match k {
        ReservationKey::Item(id) => (0u8, id.0, 0i32, 0i32),
        ReservationKey::Tile(t) => (1u8, 0u64, t.x, t.y),
        ReservationKey::Fixture(id) => (2u8, id.0, 0i32, 0i32),
    }
}

fn encode(k: ReservationKey) -> (r: KeyCode)
    ensures
        r == key_code(k),
{
    match k {
        ReservationKey::Item(id) => (0u8, id.0, 0i32, 0i32),
        ReservationKey::Tile(t) => (1u8, 0u64, t.x, t.y),
        ReservationKey::Fixture(id) => (2u8, id.0, 0i32, 0i32),
    }
}

/// Distinct keys have distinct codes.
pub proof fn lemma_key_code_injective(a: ReservationKey, b: ReservationKey)
    ensures
        key_code(a) == key_code(b) ==> a == b,
{
}

#[verifier::external_type_specification]
#[verifier::external_body]
#[verifier::reject_recursive_types(K)]
#[verifier::reject_recursive_types(S)]
pub struct ExDashSet<K, S>(DashSet<K, S>);

/// The keys a `DashSet` of codes holds.
pub uninterp spec fn dash_keys(s: DashSet<KeyCode>) -> Set<KeyCode>;

/// `DashSet::new`: an empty set.
#[verifier::external_body]
fn dash_new() -> (r: DashSet<KeyCode>)
    ensures
        dash_keys(r) == Set::<KeyCode>::empty(),
{
    DashSet::new()
}

/// `DashSet::contains`: whether the key is in the set.
#[verifier::external_body]
fn dash_contains(s: &DashSet<KeyCode>, k: &KeyCode) -> (r: bool)
    ensures
        r == dash_keys(*s).contains(*k),
{
    s.contains(k)
}

/// `DashSet::insert`: adds the key; true when it was not in the set.
#[verifier::external_body]
fn dash_insert(s: &mut DashSet<KeyCode>, k: KeyCode) -> (r: bool)
    ensures
        dash_keys(*final(s)) == dash_keys(*old(s)).insert(k),
        r == !dash_keys(*old(s)).contains(k),
{
    s.insert(k)
}

/// `DashSet::remove`: removes the key, returning it when it was in the set.
#[verifier::external_body]
fn dash_remove(s: &mut DashSet<KeyCode>, k: &KeyCode) -> (r: Option<KeyCode>)
    ensures
        dash_keys(*final(s)) == dash_keys(*old(s)).remove(*k),
        r == if dash_keys(*old(s)).contains(*k) {
            Some(*k)
        } else {
            None::<KeyCode>
        },
{
    s.remove(k)
}

/// The set of reserved keys shared by all plans.
#[derive(Debug)]
pub struct Reservations {
    set: DashSet<KeyCode>,
}

/// A reservation taken on `key`.
#[derive(Debug, Clone, Copy, PartialEq, Eq, Structural)]
pub struct ReservationGuard {
    pub key: ReservationKey,
}

impl Reservations {
    pub closed spec fn view(&self) -> Set<ReservationKey> {
        Set::new(|k: ReservationKey| dash_keys(self.set).contains(key_code(k)))
    }

    /// Nothing reserved.
    pub fn new() -> (r: Self)
        ensures
            r@ == Set::<ReservationKey>::empty(),
    {
        let r = Reservations { set: dash_new() };
        assert(r@ =~= Set::<ReservationKey>::empty());
        r
    }

    pub fn is_reserved(&self, key: ReservationKey) -> (r: bool)
        ensures
            r == self@.contains(key),
    {
        let c = encode(key);
        dash_contains(&self.set, &c)
    }

    /// Reserve `key` (whether or not it already was).
    pub fn reserve(&mut self, key: ReservationKey) -> (g: ReservationGuard)
        ensures
            final(self)@ == old(self)@.insert(key),
            g.key == key,
    {
        let c = encode(key);
        dash_insert(&mut self.set, c);
        proof {
            assert forall|k: ReservationKey| #[trigger] self@.contains(k) == old(self)@.insert(key).contains(k) by {
                lemma_key_code_injective(k, key);
            }
            assert(self@ =~= old(self)@.insert(key));
        }
        ReservationGuard { key }
    }

    /// Release `key`.
    pub fn release(&mut self, key: ReservationKey)
        ensures
            final(self)@ == old(self)@.remove(key),
    {
        let c = encode(key);
        dash_remove(&mut self.set, &c);
        proof {
            assert forall|k: ReservationKey| #[trigger] self@.contains(k) == old(self)@.remove(key).contains(k) by {
                lemma_key_code_injective(k, key);
            }
            assert(self@ =~= old(self)@.remove(key));
        }
    }
}

/// The `Debug` text of a reservation key.
pub open spec fn key_debug(k: ReservationKey) -> Seq<char> {
    match k {
        ReservationKey::Item(id) => "Item("@ + wrapped_number("ItemId"@, id.0 as nat) + ")"@,
        ReservationKey::Tile(t) => "Tile("@ + tile_debug(t.x as int, t.y as int) + ")"@,
        ReservationKey::Fixture(id) => "Fixture("@ + wrapped_number("FixtureId"@, id.0 as nat)
            + ")"@,
    }
}

/// The `Debug` text of a reservation key.
pub fn key_text(k: ReservationKey) -> (r: String)
    ensures
        r@ == key_debug(k),
{
    let (mut s, inner) = match k {
        ReservationKey::Item(id) => (String::from_str("Item("), wrapped_number_text("ItemId", id.0)),
        ReservationKey::Tile(t) => (String::from_str("Tile("), tile_text(t.x, t.y)),
        ReservationKey::Fixture(id) => (
            String::from_str("Fixture("),
            wrapped_number_text("FixtureId", id.0),
        ),
    };
    s.append(inner.as_str());
    s.append(")");
    s
}

/// The message of a refused reservation.
pub open spec fn already_reserved_msg(k: ReservationKey) -> Seq<char> {
    "Key "@ + key_debug(k) + " is already reserved"@
}

/// The reservations one plan holds; they are released together when the plan is
/// dropped.
#[derive(Debug, Clone, PartialEq, Eq)]
pub struct HeldReservations {
    pub held: Vec<ReservationKey>,
}

impl HeldReservations {
    pub open spec fn view(&self) -> Seq<ReservationKey> {
        self.held@
    }

    /// Every held key is reserved, and none is held twice.
    pub open spec fn within(&self, res: Set<ReservationKey>) -> bool {
        &&& self@.no_duplicates()
        &&& forall|i: int| 0 <= i < self@.len() ==> res.contains(#[trigger] self@[i])
    }

    /// Holds nothing.
    pub fn new() -> (r: Self)
        ensures
            r@ == Seq::<ReservationKey>::empty(),
    {
        HeldReservations { held: Vec::new() }
    }

    /// Whether this plan holds `key`.
    pub fn is_reserved(&self, key: ReservationKey) -> (r: bool)
        ensures
            r == self@.contains(key),
    {
        let mut i: usize = 0;
        while i < self.held.len()
            invariant
                i <= self.held@.len(),
                forall|j: int| 0 <= j < i ==> self.held@[j] != key,
            decreases self.held@.len() - i,
        {
            if self.held[i] == key {
                return true;
            }
            i = i + 1;
        }
        false
    }

    /// Reserve `key` for this plan; refused when anyone holds it already.
    pub fn try_reserve(&mut self, res: &mut Reservations, key: ReservationKey) -> (r: Result<(), String>)
        ensures
            old(res)@.contains(key) ==> (r matches Err(e) && e@ == already_reserved_msg(key))
                && final(res)@ == old(res)@ && final(self)@ == old(self)@,
            !old(res)@.contains(key) ==> r is Ok && final(res)@ == old(res)@.insert(key)
                && final(self)@ == old(self)@.push(key),
    {
        if res.is_reserved(key) {
            let mut e = String::from_str("Key ");
            let kt = key_text(key);
            e.append(kt.as_str());
            e.append(" is already reserved");
            return Err(e);
        }
        let g = res.reserve(key);
        self.held.push(g.key);
        Ok(())
    }

    /// Make sure this plan holds `key`: nothing to do when it already does.
    pub fn try_ensure(&mut self, res: &mut Reservations, key: ReservationKey) -> (r: Result<(), String>)
        ensures
            old(self)@.contains(key) ==> r is Ok && final(res)@ == old(res)@ && final(self)@ == old(self)@,
            !old(self)@.contains(key) && old(res)@.contains(key) ==> (r matches Err(e) && e@
                == already_reserved_msg(key)) && final(res)@ == old(res)@ && final(self)@ == old(self)@,
            !old(self)@.contains(key) && !old(res)@.contains(key) ==> r is Ok && final(res)@
                == old(res)@.insert(key) && final(self)@ == old(self)@.push(key),
    {
        if self.is_reserved(key) {
            return Ok(());
        }
        self.try_reserve(res, key)
    }

    /// Stop holding `key` and release it.
    pub fn remove(&mut self, res: &mut Reservations, key: ReservationKey)
        ensures
            !final(self)@.contains(key),
            forall|k: ReservationKey| k != key ==> (final(self)@.contains(k) <==> old(self)@.contains(k)),
            old(self)@.contains(key) ==> final(res)@ == old(res)@.remove(key),
            !old(self)@.contains(key) ==> final(res)@ == old(res)@,
    {
        let mut kept: Vec<ReservationKey> = Vec::new();
        let mut found = false;
        let mut i: usize = 0;
        while i < self.held.len()
            invariant
                i <= self.held@.len(),
                self.held@ == old(self).held@,
                found == self.held@.take(i as int).contains(key),
                !kept@.contains(key),
                forall|k: ReservationKey| k != key ==> (kept@.contains(k) <==> self.held@.take(i as int).contains(k)),
            decreases self.held@.len() - i,
        {
            let k = self.held[i];
            let ghost prev = self.held@.take(i as int);
            let ghost kept0 = kept@;
            proof {
                assert(self.held@.take(i as int + 1) =~= prev.push(k));
                crate::components::lemma_push_contains(prev, k, key);
            }
            if k == key {
                found = true;
                proof {
                    assert forall|k2: ReservationKey| k2 != key implies (#[trigger] kept@.contains(k2)
                        <==> self.held@.take(i as int + 1).contains(k2)) by {
                        crate::components::lemma_push_contains(prev, k, k2);
                    }
                }
            } else {
                kept.push(k);
                proof {
                    crate::components::lemma_push_contains(kept0, k, key);
                    assert forall|k2: ReservationKey| k2 != key implies (#[trigger] kept@.contains(k2)
                        <==> self.held@.take(i as int + 1).contains(k2)) by {
                        crate::components::lemma_push_contains(kept0, k, k2);
                        crate::components::lemma_push_contains(prev, k, k2);
                    }
                }
            }
            i = i + 1;
        }
        assert(self.held@.take(self.held@.len() as int) =~= self.held@);
        self.held = kept;
        if found {
            res.release(key);
        }
    }

    /// Release every held key; this plan holds nothing afterwards.
    pub fn release_all(&mut self, res: &mut Reservations)
        ensures
            final(self)@ == Seq::<ReservationKey>::empty(),
            final(res)@ == old(res)@.difference(old(self)@.to_set()),
    {
        let mut i: usize = 0;
        while i < self.held.len()
            invariant
                i <= self.held@.len(),
                self.held@ == old(self).held@,
                res@ == old(res)@.difference(self.held@.take(i as int).to_set()),
            decreases self.held@.len() - i,
        {
            let k = self.held[i];
            res.release(k);
            proof {
                assert(self.held@.take(i as int + 1).to_set() =~= self.held@.take(i as int).to_set().insert(k)) by {
                    assert(self.held@.take(i as int + 1) =~= self.held@.take(i as int).push(k));
                    broadcast use vstd::seq_lib::group_seq_properties;
                }
                assert(res@ =~= old(res)@.difference(self.held@.take(i as int + 1).to_set()));
            }
            i = i + 1;
        }
        assert(self.held@.take(self.held@.len() as int) =~= self.held@);
        self.held = Vec::new();
    }
}

} // verus!
