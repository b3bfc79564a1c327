//! Consistency checks over the whole world, reported as messages.
use vstd::prelude::*;
use crate::components::{FixtureKind, ItemRelation, has_id};
use crate::grid::TileId;
use crate::ids::{Entity, FixtureId, IdIndex, ItemId, PawnId, SimId};
use crate::text::{nat_decimal, tile_debug, tile_text, u64_decimal, wrapped_number, wrapped_number_text};
use crate::world::{FixtureEntity, ItemEntity, PawnEntity, SimWorld};

verus! {

/// The entry an id index holds for `id`: `None` when it is not registered.
pub open spec fn entry_of<T: SimId>(idx: IdIndex<T>, id: T) -> Option<Option<Entity>> {
    if idx.has(id) {
        Some(idx.view()[id.raw()])
    } else {
        None
    }
}

/// The `Debug` text of an entity.
pub open spec fn entity_text(e: Entity) -> Seq<char> {
    wrapped_number("Entity"@, e.0 as nat)
}

/// How an index entry shows in a mismatch message.
pub open spec fn entry_text(e: Option<Option<Entity>>) -> Seq<char> {
    match e {
        Some(Some(x)) => entity_text(x),
        _ => "None"@,
    }
}

/// A one-message list when `cond` holds, else none.
pub open spec fn msg_if(cond: bool, m: Seq<char>) -> Seq<Seq<char>> {
    if cond {
        seq![m]
    } else {
        Seq::empty()
    }
}

pub open spec fn tile_text_of(t: TileId) -> Seq<char> {
    tile_debug(t.x as int, t.y as int)
}

pub open spec fn pawn_text(id: PawnId) -> Seq<char> {
    wrapped_number("PawnId"@, id.0 as nat)
}

pub open spec fn fixture_text(id: FixtureId) -> Seq<char> {
    wrapped_number("FixtureId"@, id.0 as nat)
}

pub open spec fn item_text(id: ItemId) -> Seq<char> {
    wrapped_number("ItemId"@, id.0 as nat)
}

/// "`what` `id` IdIndex mismatch: index=.. entity=..".
pub open spec fn mismatch_msg(what: Seq<char>, id: Seq<char>, entry: Option<Option<Entity>>, e: Entity) -> Seq<char> {
    what + " "@ + id + " IdIndex mismatch: index="@ + entry_text(entry) + " entity="@ + entity_text(e)
}

/// "`what` `id` `middle` `tile`", for the out-of-bounds and tile index messages.
pub open spec fn at_msg(what: Seq<char>, id: Seq<char>, middle: Seq<char>, t: TileId) -> Seq<char> {
    what + " "@ + id + middle + tile_text_of(t)
}

/// The problems of pawn record `p`: its index entry, its position on the map,
/// and the pawn tile index at its position.
pub open spec fn pawn_errs(w: &SimWorld, p: PawnEntity) -> Seq<Seq<char>> {
    let entry = entry_of(w.pawn_index, p.pawn.id);
    msg_if(entry != Some(Some(p.entity)), mismatch_msg("Pawn"@, pawn_text(p.pawn.id), entry, p.entity))
        + msg_if(!w.grid.cfg.contains(p.pos), at_msg("Pawn"@, pawn_text(p.pawn.id), " out of bounds at "@, p.pos))
        + msg_if(
        w.pawn_tiles.at(p.pos) != Some(p.pawn.id),
        at_msg("Pawn"@, pawn_text(p.pawn.id), " tile index mismatch at "@, p.pos),
    )
}

/// The problems of fixture record `f`: its index entry, a berry bush without
/// harvest state, its position on the map, and the fixture tile index there.
pub open spec fn fixture_errs(w: &SimWorld, f: FixtureEntity) -> Seq<Seq<char>> {
    let id = f.fixture.id;
    let entry = entry_of(w.fixture_index, id);
    msg_if(entry != Some(Some(f.entity)), mismatch_msg("Fixture"@, fixture_text(id), entry, f.entity))
        + msg_if(
        f.fixture.kind == FixtureKind::BerryBush && f.harvestable is None,
        "BerryBush "@ + fixture_text(id) + " has None harvest_countdown; expected Some(>0 or reset)"@,
    ) + msg_if(!w.grid.cfg.contains(f.pos), at_msg("Fixture"@, fixture_text(id), " out of bounds at "@, f.pos))
        + msg_if(
        w.fixture_tiles.at(f.pos) != Some(id),
        at_msg("Fixture"@, fixture_text(id), " tile index mismatch at "@, f.pos),
    )
}

/// The last of the first `n` pawns whose inventory lists item `id`.
pub open spec fn pawn_owner(pawns: Seq<PawnEntity>, id: ItemId, n: int) -> Option<PawnId>
    decreases n,
{
    if n <= 0 {
        None
    } else if has_id(pawns[n - 1].pawn.inventory@, id) {
        Some(pawns[n - 1].pawn.id)
    } else {
        pawn_owner(pawns, id, n - 1)
    }
}

/// The last of the first `n` fixtures whose inventory lists item `id`.
pub open spec fn fixture_owner(fs: Seq<FixtureEntity>, id: ItemId, n: int) -> Option<FixtureId>
    decreases n,
{
    if n <= 0 {
        None
    } else if has_id(fs[n - 1].fixture.inventory@, id) {
        Some(fs[n - 1].fixture.id)
    } else {
        fixture_owner(fs, id, n - 1)
    }
}

/// The problems of a ground item `id` at `p`.
pub open spec fn ground_errs(w: &SimWorld, id: ItemId, p: TileId, po: Option<PawnId>, fo: Option<FixtureId>) -> Seq<Seq<char>> {
    msg_if(!w.grid.cfg.contains(p), at_msg("Item"@, item_text(id), " out of bounds at "@, p)) + msg_if(
        w.item_tiles.at(p) != Some(id),
        at_msg("Item"@, item_text(id), " tile index mismatch at "@, p),
    ) + msg_if(po is Some || fo is Some, "Item "@ + item_text(id) + " on ground but appears in an inventory"@)
}

/// The problems of item `id` carried by `pid`.
pub open spec fn carried_errs(id: ItemId, pid: PawnId, po: Option<PawnId>, fo: Option<FixtureId>) -> Seq<Seq<char>> {
    let owner_errs = match po {
        Some(owner) => msg_if(
            owner != pid,
            "Item "@ + item_text(id) + " carried by "@ + pawn_text(pid) + " but appears in pawn "@ + pawn_text(owner)
                + " inventory"@,
        ),
        None => seq!["Item "@ + item_text(id) + " carried by "@ + pawn_text(pid) + " but not in pawn inventory"@],
    };
    owner_errs + msg_if(
        fo is Some,
        "Item "@ + item_text(id) + " carried by "@ + pawn_text(pid) + " but appears in a fixture inventory"@,
    )
}

/// The problems of item `id` stored in fixture `fid`.
pub open spec fn stored_errs(id: ItemId, fid: FixtureId, po: Option<PawnId>, fo: Option<FixtureId>) -> Seq<Seq<char>> {
    let owner_errs = match fo {
        Some(owner) => msg_if(
            owner != fid,
            "Item "@ + item_text(id) + " in fixture "@ + fixture_text(fid) + " but appears in fixture "@
                + fixture_text(owner) + " inventory"@,
        ),
        None => seq!["Item "@ + item_text(id) + " in fixture "@ + fixture_text(fid) + " but not in its inventory"@],
    };
    owner_errs + msg_if(
        po is Some,
        "Item "@ + item_text(id) + " in fixture "@ + fixture_text(fid) + " but appears in a pawn inventory"@,
    )
}

/// The problems of item record `it`: its index entry, a zero quantity, and how
/// its place agrees with the inventories and the item tile index.
pub open spec fn item_errs(w: &SimWorld, it: ItemEntity) -> Seq<Seq<char>> {
    let id = it.item.id;
    let entry = entry_of(w.item_index, id);
    let po = pawn_owner(w.pawns@, id, w.pawns@.len() as int);
    let fo = fixture_owner(w.fixtures@, id, w.fixtures@.len() as int);
    let place = match it.relation {
        ItemRelation::OnGround(p) => ground_errs(w, id, p, po, fo),
        ItemRelation::CarriedBy(pid) => carried_errs(id, pid, po, fo),
        ItemRelation::InFixture(fid) => stored_errs(id, fid, po, fo),
    };
    msg_if(entry != Some(Some(it.entity)), mismatch_msg("Item"@, item_text(id), entry, it.entity)) + msg_if(
        it.item.qty == 0,
        "Item "@ + item_text(id) + " has qty=0"@,
    ) + place
}

/// The problems of the first `n` pawns, in order.
pub open spec fn all_pawn_errs(w: &SimWorld, n: int) -> Seq<Seq<char>>
    decreases n,
{
    if n <= 0 {
        Seq::empty()
    } else {
        all_pawn_errs(w, n - 1) + pawn_errs(w, w.pawns@[n - 1])
    }
}

/// The problems of the first `n` fixtures, in order.
pub open spec fn all_fixture_errs(w: &SimWorld, n: int) -> Seq<Seq<char>>
    decreases n,
{
    if n <= 0 {
        Seq::empty()
    } else {
        all_fixture_errs(w, n - 1) + fixture_errs(w, w.fixtures@[n - 1])
    }
}

/// The problems of the first `n` items, in order.
pub open spec fn all_item_errs(w: &SimWorld, n: int) -> Seq<Seq<char>>
    decreases n,
{
    if n <= 0 {
        Seq::empty()
    } else {
        all_item_errs(w, n - 1) + item_errs(w, w.items@[n - 1])
    }
}

/// Every problem of the world: the pawns', then the fixtures', then the items'.
pub open spec fn world_errors(w: &SimWorld) -> Seq<Seq<char>> {
    all_pawn_errs(w, w.pawns@.len() as int) + all_fixture_errs(w, w.fixtures@.len() as int) + all_item_errs(
        w,
        w.items@.len() as int,
    )
}

// ---- what an empty report means ----

/// Pawn record `p` agrees with its index entry and stands on the map, recorded
/// at its tile.
pub open spec fn pawn_ok(w: &SimWorld, p: PawnEntity) -> bool {
    &&& entry_of(w.pawn_index, p.pawn.id) == Some(Some(p.entity))
    &&& w.grid.cfg.contains(p.pos)
    &&& w.pawn_tiles.at(p.pos) == Some(p.pawn.id)
}

/// Fixture record `f` agrees with its index entry, a berry bush has harvest
/// state, and it stands on the map, recorded at its tile.
pub open spec fn fixture_ok(w: &SimWorld, f: FixtureEntity) -> bool {
    &&& entry_of(w.fixture_index, f.fixture.id) == Some(Some(f.entity))
    &&& !(f.fixture.kind == FixtureKind::BerryBush && f.harvestable is None)
    &&& w.grid.cfg.contains(f.pos)
    &&& w.fixture_tiles.at(f.pos) == Some(f.fixture.id)
}

/// Item record `it` agrees with its index entry, has a quantity, and is where
/// its relation says: on a map tile recorded for it and in no inventory, or in
/// the inventory of its carrier (the last pawn listing it) and of no fixture,
/// or in that of its fixture (the last fixture listing it) and of no pawn.
pub open spec fn item_ok(w: &SimWorld, it: ItemEntity) -> bool {
    let id = it.item.id;
    let po = pawn_owner(w.pawns@, id, w.pawns@.len() as int);
    let fo = fixture_owner(w.fixtures@, id, w.fixtures@.len() as int);
    &&& entry_of(w.item_index, id) == Some(Some(it.entity))
    &&& it.item.qty != 0
    &&& match it.relation {
        ItemRelation::OnGround(p) => w.grid.cfg.contains(p) && w.item_tiles.at(p) == Some(id) && po is None
            && fo is None,
        ItemRelation::CarriedBy(pid) => po == Some(pid) && fo is None,
        ItemRelation::InFixture(fid) => fo == Some(fid) && po is None,
    }
}

/// Every pawn, fixture and item record is as it should be.
pub open spec fn world_ok(w: &SimWorld) -> bool {
    &&& forall|k: int| 0 <= k < w.pawns@.len() ==> #[trigger] pawn_ok(w, w.pawns@[k])
    &&& forall|k: int| 0 <= k < w.fixtures@.len() ==> #[trigger] fixture_ok(w, w.fixtures@[k])
    &&& forall|k: int| 0 <= k < w.items@.len() ==> #[trigger] item_ok(w, w.items@[k])
}

proof fn lemma_pawn_errs_empty(w: &SimWorld, n: int)
    requires
        0 <= n <= w.pawns@.len(),
    ensures
        all_pawn_errs(w, n).len() == 0 <==> forall|k: int| 0 <= k < n ==> #[trigger] pawn_ok(w, w.pawns@[k]),
    decreases n,
{
    if n > 0 {
        lemma_pawn_errs_empty(w, n - 1);
        let p = w.pawns@[n - 1];
        assert(pawn_errs(w, p).len() == 0 <==> pawn_ok(w, p));
    }
}

proof fn lemma_fixture_errs_empty(w: &SimWorld, n: int)
    requires
        0 <= n <= w.fixtures@.len(),
    ensures
        all_fixture_errs(w, n).len() == 0 <==> forall|k: int| 0 <= k < n ==> #[trigger] fixture_ok(w, w.fixtures@[k]),
    decreases n,
{
    if n > 0 {
        lemma_fixture_errs_empty(w, n - 1);
        let f = w.fixtures@[n - 1];
        assert(fixture_errs(w, f).len() == 0 <==> fixture_ok(w, f));
    }
}

proof fn lemma_item_errs_one(w: &SimWorld, it: ItemEntity)
    ensures
        item_errs(w, it).len() == 0 <==> item_ok(w, it),
{
    let id = it.item.id;
    let po = pawn_owner(w.pawns@, id, w.pawns@.len() as int);
    let fo = fixture_owner(w.fixtures@, id, w.fixtures@.len() as int);
    match it.relation {
        ItemRelation::OnGround(p) => {
            assert(ground_errs(w, id, p, po, fo).len() == 0 <==> (w.grid.cfg.contains(p) && w.item_tiles.at(p) == Some(id)
                && po is None && fo is None));
        },
        ItemRelation::CarriedBy(pid) => {
            assert(carried_errs(id, pid, po, fo).len() == 0 <==> (po == Some(pid) && fo is None));
        },
        ItemRelation::InFixture(fid) => {
            assert(stored_errs(id, fid, po, fo).len() == 0 <==> (fo == Some(fid) && po is None));
        },
    }
}

proof fn lemma_item_errs_empty(w: &SimWorld, n: int)
    requires
        0 <= n <= w.items@.len(),
    ensures
        all_item_errs(w, n).len() == 0 <==> forall|k: int| 0 <= k < n ==> #[trigger] item_ok(w, w.items@[k]),
    decreases n,
{
    if n > 0 {
        lemma_item_errs_empty(w, n - 1);
        lemma_item_errs_one(w, w.items@[n - 1]);
    }
}

/// The validator reports nothing exactly when every pawn, fixture and item
/// record is as it should be.
pub proof fn law_no_errors_iff_world_ok(w: &SimWorld)
    ensures
        world_errors(w).len() == 0 <==> world_ok(w),
{
    lemma_pawn_errs_empty(w, w.pawns@.len() as int);
    lemma_fixture_errs_empty(w, w.fixtures@.len() as int);
    lemma_item_errs_empty(w, w.items@.len() as int);
}

/// The texts of `v`.
pub open spec fn texts(v: Seq<String>) -> Seq<Seq<char>> {
    v.map_values(|s: String| s@)
}


/// Append `m` to `errors` when `cond` holds.
fn add_if(errors: &mut Vec<String>, cond: bool, m: String)
    ensures
        texts(final(errors)@) == texts(old(errors)@) + msg_if(cond, m@),
{
    if cond {
        let ghost before = errors@;
        errors.push(m);
        assert(texts(errors@) =~= texts(before) + msg_if(cond, m@));
    } else {
        assert(texts(errors@) =~= texts(errors@) + msg_if(cond, m@));
    }
}

fn entity_string(e: Entity) -> (r: String)
    ensures
        r@ == entity_text(e),
{
    wrapped_number_text("Entity", e.0)
}

fn mismatch_string(what: &str, id: &String, entry: Option<Option<Entity>>, e: Entity) -> (r: String)
    ensures
        r@ == mismatch_msg(what@, id@, entry, e),
{
    let mut m = String::from_str(what);
    m.append(" ");
    m.append(id.as_str());
    m.append(" IdIndex mismatch: index=");
    match entry {
        Some(Some(x)) => {
            let t = entity_string(x);
            m.append(t.as_str());
        },
        _ => {
            m.append("None");
        },
    }
    m.append(" entity=");
    let t = entity_string(e);
    m.append(t.as_str());
    m
}

fn at_string(what: &str, id: &String, middle: &str, t: TileId) -> (r: String)
    ensures
        r@ == at_msg(what@, id@, middle@, t),
{
    let mut m = String::from_str(what);
    m.append(" ");
    m.append(id.as_str());
    m.append(middle);
    let tt = tile_text(t.x, t.y);
    m.append(tt.as_str());
    m
}

/// Whether an index entry is `Some(Some(e))`.
fn entry_is(entry: Option<Option<Entity>>, e: Entity) -> (r: bool)
    ensures
        r == (entry == Some(Some(e))),
{
    match entry {
        Some(Some(x)) => x.0 == e.0,
        _ => false,
    }
}

/// What validating a world needs of it: its tile indices are well formed and
/// cover its map. Duplicate ids and unregistered records are what validation
/// reports, so nothing is asked of them.
pub open spec fn checkable(w: &SimWorld) -> bool {
    &&& w.pawn_tiles.wf()
    &&& w.item_tiles.wf()
    &&& w.fixture_tiles.wf()
    &&& w.pawn_tiles.cfg() == w.grid.cfg
    &&& w.item_tiles.cfg() == w.grid.cfg
    &&& w.fixture_tiles.cfg() == w.grid.cfg
}

fn check_pawn(w: &SimWorld, p: &PawnEntity, errors: &mut Vec<String>)
    requires
        checkable(w),
    ensures
        texts(final(errors)@) == texts(old(errors)@) + pawn_errs(w, *p),
{
    let id = wrapped_number_text("PawnId", p.pawn.id.0);
    let entry = w.pawn_index.lookup(&p.pawn.id);
    let bad_entry = !entry_is(entry, p.entity);
    add_if(errors, bad_entry, mismatch_string("Pawn", &id, entry, p.entity));
    let oob = !w.grid.cfg.in_bounds(p.pos);
    add_if(errors, oob, at_string("Pawn", &id, " out of bounds at ", p.pos));
    let bad_tile = match w.pawn_tiles.get(p.pos) {
        Some(x) => x.0 != p.pawn.id.0,
        None => true,
    };
    add_if(errors, bad_tile, at_string("Pawn", &id, " tile index mismatch at ", p.pos));
    assert(texts(errors@) =~= texts(old(errors)@) + pawn_errs(w, *p));
}

fn check_fixture(w: &SimWorld, f: &FixtureEntity, errors: &mut Vec<String>)
    requires
        checkable(w),
    ensures
        texts(final(errors)@) == texts(old(errors)@) + fixture_errs(w, *f),
{
    let fid = f.fixture.id;
    let id = wrapped_number_text("FixtureId", fid.0);
    let entry = w.fixture_index.lookup(&fid);
    let bad_entry = !entry_is(entry, f.entity);
    add_if(errors, bad_entry, mismatch_string("Fixture", &id, entry, f.entity));
    let bare_bush = f.fixture.kind == FixtureKind::BerryBush && f.harvestable.is_none();
    let mut m = String::from_str("BerryBush ");
    m.append(id.as_str());
    m.append(" has None harvest_countdown; expected Some(>0 or reset)");
    add_if(errors, bare_bush, m);
    let oob = !w.grid.cfg.in_bounds(f.pos);
    add_if(errors, oob, at_string("Fixture", &id, " out of bounds at ", f.pos));
    let bad_tile = match w.fixture_tiles.get(f.pos) {
        Some(x) => x.0 != fid.0,
        None => true,
    };
    add_if(errors, bad_tile, at_string("Fixture", &id, " tile index mismatch at ", f.pos));
    assert(texts(errors@) =~= texts(old(errors)@) + fixture_errs(w, *f));
}

/// The last pawn whose inventory lists item `id` (`pawn_owner`).
fn pawn_owner_of(w: &SimWorld, id: ItemId) -> (r: Option<PawnId>)
    ensures
        r == pawn_owner(w.pawns@, id, w.pawns@.len() as int),
{
    let mut r: Option<PawnId> = None;
    let mut i: usize = 0;
    while i < w.pawns.len()
        invariant
            i <= w.pawns@.len(),
            r == pawn_owner(w.pawns@, id, i as int),
        decreases w.pawns@.len() - i,
    {
        if w.pawns[i].pawn.inventory.contains(&id) {
            r = Some(w.pawns[i].pawn.id);
        }
        i = i + 1;
    }
    r
}

/// The last fixture whose inventory lists item `id` (`fixture_owner`).
fn fixture_owner_of(w: &SimWorld, id: ItemId) -> (r: Option<FixtureId>)
    ensures
        r == fixture_owner(w.fixtures@, id, w.fixtures@.len() as int),
{
    let mut r: Option<FixtureId> = None;
    let mut i: usize = 0;
    while i < w.fixtures.len()
        invariant
            i <= w.fixtures@.len(),
            r == fixture_owner(w.fixtures@, id, i as int),
        decreases w.fixtures@.len() - i,
    {
        if w.fixtures[i].fixture.inventory.contains(&id) {
            r = Some(w.fixtures[i].fixture.id);
        }
        i = i + 1;
    }
    r
}

/// "Item `id`" followed by `rest`.
fn item_msg(id: &String, rest: &str) -> (r: String)
    ensures
        r@ == "Item "@ + id@ + rest@,
{
    let mut m = String::from_str("Item ");
    m.append(id.as_str());
    m.append(rest);
    m
}

/// "Item `id` `a` `x` `b`", with `x` an id text.
fn item_msg2(id: &String, a: &str, x: &String, b: &str) -> (r: String)
    ensures
        r@ == "Item "@ + id@ + a@ + x@ + b@,
{
    let mut m = item_msg(id, a);
    m.append(x.as_str());
    m.append(b);
    m
}

/// "Item `id` `a` `x` `b` `y` `c`", with `x` and `y` id texts.
fn item_msg3(id: &String, a: &str, x: &String, b: &str, y: &String, c: &str) -> (r: String)
    ensures
        r@ == "Item "@ + id@ + a@ + x@ + b@ + y@ + c@,
{
    let mut m = item_msg2(id, a, x, b);
    m.append(y.as_str());
    m.append(c);
    m
}

fn check_ground(w: &SimWorld, iid: ItemId, id: &String, p: TileId, po: Option<PawnId>, fo: Option<FixtureId>, errors: &mut Vec<String>)
    requires
        checkable(w),
        id@ == item_text(iid),
    ensures
        texts(final(errors)@) == texts(old(errors)@) + ground_errs(w, iid, p, po, fo),
{
    let oob = !w.grid.cfg.in_bounds(p);
    add_if(errors, oob, at_string("Item", id, " out of bounds at ", p));
    let bad_tile = match w.item_tiles.get(p) {
        Some(x) => x.0 != iid.0,
        None => true,
    };
    add_if(errors, bad_tile, at_string("Item", id, " tile index mismatch at ", p));
    add_if(errors, po.is_some() || fo.is_some(), item_msg(id, " on ground but appears in an inventory"));
    assert(texts(errors@) =~= texts(old(errors)@) + ground_errs(w, iid, p, po, fo));
}

fn check_carried(iid: ItemId, id: &String, pid: PawnId, po: Option<PawnId>, fo: Option<FixtureId>, errors: &mut Vec<String>)
    requires
        id@ == item_text(iid),
    ensures
        texts(final(errors)@) == texts(old(errors)@) + carried_errs(iid, pid, po, fo),
{
    let ptext = wrapped_number_text("PawnId", pid.0);
    match po {
        Some(owner) => {
            let otext = wrapped_number_text("PawnId", owner.0);
            add_if(
                errors,
                owner.0 != pid.0,
                item_msg3(id, " carried by ", &ptext, " but appears in pawn ", &otext, " inventory"),
            );
        },
        None => {
            add_if(errors, true, item_msg2(id, " carried by ", &ptext, " but not in pawn inventory"));
        },
    }
    add_if(errors, fo.is_some(), item_msg2(id, " carried by ", &ptext, " but appears in a fixture inventory"));
    assert(texts(errors@) =~= texts(old(errors)@) + carried_errs(iid, pid, po, fo));
}

fn check_stored(iid: ItemId, id: &String, fid: FixtureId, po: Option<PawnId>, fo: Option<FixtureId>, errors: &mut Vec<String>)
    requires
        id@ == item_text(iid),
    ensures
        texts(final(errors)@) == texts(old(errors)@) + stored_errs(iid, fid, po, fo),
{
    let ftext = wrapped_number_text("FixtureId", fid.0);
    match fo {
        Some(owner) => {
            let otext = wrapped_number_text("FixtureId", owner.0);
            add_if(
                errors,
                owner.0 != fid.0,
                item_msg3(id, " in fixture ", &ftext, " but appears in fixture ", &otext, " inventory"),
            );
        },
        None => {
            add_if(errors, true, item_msg2(id, " in fixture ", &ftext, " but not in its inventory"));
        },
    }
    add_if(errors, po.is_some(), item_msg2(id, " in fixture ", &ftext, " but appears in a pawn inventory"));
    assert(texts(errors@) =~= texts(old(errors)@) + stored_errs(iid, fid, po, fo));
}

fn check_item(w: &SimWorld, it: &ItemEntity, errors: &mut Vec<String>)
    requires
        checkable(w),
    ensures
        texts(final(errors)@) == texts(old(errors)@) + item_errs(w, *it),
{
    let iid = it.item.id;
    let id = wrapped_number_text("ItemId", iid.0);
    let entry = w.item_index.lookup(&iid);
    let bad_entry = !entry_is(entry, it.entity);
    add_if(errors, bad_entry, mismatch_string("Item", &id, entry, it.entity));
    add_if(errors, it.item.qty == 0, item_msg(&id, " has qty=0"));
    let ghost mid = texts(errors@);
    let po = pawn_owner_of(w, iid);
    let fo = fixture_owner_of(w, iid);
    match it.relation {
        ItemRelation::OnGround(p) => check_ground(w, iid, &id, p, po, fo, errors),
        ItemRelation::CarriedBy(pid) => check_carried(iid, &id, pid, po, fo, errors),
        ItemRelation::InFixture(fid) => check_stored(iid, &id, fid, po, fo, errors),
    }
    assert(texts(errors@) =~= texts(old(errors)@) + item_errs(w, *it));
}

/// Every problem of the world (`world_errors`): the pawns', then the fixtures',
/// then the items', each in record order.
pub fn validate_world(world: &SimWorld) -> (errors: Vec<String>)
    requires
        checkable(world),
    ensures
        texts(errors@) == world_errors(world),
{
    let mut errors: Vec<String> = Vec::new();
    assert(texts(errors@) =~= Seq::<Seq<char>>::empty());
    let mut i: usize = 0;
    while i < world.pawns.len()
        invariant
            checkable(world),
            i <= world.pawns@.len(),
            texts(errors@) == all_pawn_errs(world, i as int),
        decreases world.pawns@.len() - i,
    {
        check_pawn(world, &world.pawns[i], &mut errors);
        i = i + 1;
    }
    let ghost pe = texts(errors@);
    let mut i: usize = 0;
    while i < world.fixtures.len()
        invariant
            checkable(world),
            i <= world.fixtures@.len(),
            texts(errors@) == pe + all_fixture_errs(world, i as int),
        decreases world.fixtures@.len() - i,
    {
        let ghost before = texts(errors@);
        check_fixture(world, &world.fixtures[i], &mut errors);
        assert(texts(errors@) =~= pe + all_fixture_errs(world, i as int + 1));
        i = i + 1;
    }
    assert(pe + all_fixture_errs(world, 0) =~= pe);
    let ghost fe = texts(errors@);
    let mut i: usize = 0;
    while i < world.items.len()
        invariant
            checkable(world),
            i <= world.items@.len(),
            texts(errors@) == fe + all_item_errs(world, i as int),
        decreases world.items@.len() - i,
    {
        check_item(world, &world.items[i], &mut errors);
        assert(texts(errors@) =~= fe + all_item_errs(world, i as int + 1));
        i = i + 1;
    }
    assert(texts(errors@) =~= world_errors(world));
    errors
}


/// What to do when the world breaks an invariant.
#[derive(Clone, Copy, Debug, PartialEq, Eq, Structural)]
pub enum InvariantMode {
    Panic,
    Warn,
    Silent,
}

/// How invariant violations are handled.
#[derive(Clone, Copy, Debug, PartialEq, Eq, Structural)]
pub struct InvariantConfig {
    pub mode: InvariantMode,
}

impl Default for InvariantConfig {
    /// Violations stop the run.
    fn default() -> (r: Self)
        ensures
            r.mode == InvariantMode::Panic,
    {
        InvariantConfig { mode: InvariantMode::Panic }
    }
}

/// The lines of `ms`, each followed by a line break except the last.
pub open spec fn joined_lines(ms: Seq<Seq<char>>) -> Seq<char>
    decreases ms.len(),
{
    if ms.len() == 0 {
        Seq::empty()
    } else if ms.len() == 1 {
        ms[0]
    } else {
        joined_lines(ms.drop_last()) + "\n"@ + ms.last()
    }
}

/// "Invariant violations (n):" followed by the messages, one per line.
pub open spec fn violation_report(ms: Seq<Seq<char>>) -> Seq<char> {
    "Invariant violations ("@ + nat_decimal(ms.len()) + "):\n"@ + joined_lines(ms)
}

/// Check the world's invariants and decide what becomes of the violations: in
/// panic mode they are the error (a report that stops the run), in warn mode
/// they are handed back to be shown, and in silent mode they are dropped.
pub fn run_invariant_checks(world: &SimWorld, cfg: InvariantConfig) -> (r: Result<Vec<String>, String>)
    requires
        checkable(world),
    ensures
        world_errors(world).len() == 0 ==> (r matches Ok(v) && v@.len() == 0),
        world_errors(world).len() > 0 ==> match cfg.mode {
            InvariantMode::Panic => r matches Err(e) && e@ == violation_report(world_errors(world)),
            InvariantMode::Warn => r matches Ok(v) && texts(v@) == world_errors(world),
            InvariantMode::Silent => r matches Ok(v) && v@.len() == 0,
        },
{
    let errors = validate_world(world);
    if errors.len() == 0 {
        return Ok(errors);
    }
    match cfg.mode {
        InvariantMode::Panic => {
            let mut report = String::from_str("Invariant violations (");
            let n = u64_decimal(errors.len() as u64);
            report.append(n.as_str());
            report.append("):\n");
            let mut body = String::new();
            let mut i: usize = 0;
            while i < errors.len()
                invariant
                    i <= errors@.len(),
                    errors@.len() > 0,
                    body@ == joined_lines(texts(errors@).take(i as int)),
                decreases errors@.len() - i,
            {
                proof {
                    assert(texts(errors@).take(i + 1).drop_last() =~= texts(errors@).take(i as int));
                    assert(texts(errors@).take(i + 1).last() == errors@[i as int]@);
                }
                if i > 0 {
                    body.append("\n");
                }
                body.append(errors[i].as_str());
                proof {
                    if i == 0 {
                        assert(texts(errors@).take(1) =~= seq![errors@[0]@]);
                        assert(body@ =~= errors@[0]@);
                    }
                }
                i = i + 1;
            }
            proof {
                assert(texts(errors@).take(errors@.len() as int) =~= texts(errors@));
            }
            report.append(body.as_str());
            Err(report)
        },
        InvariantMode::Warn => Ok(errors),
        InvariantMode::Silent => Ok(Vec::new()),
    }
}

} // verus!
