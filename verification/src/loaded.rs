//! What loading a scenario establishes of the world it builds.
use vstd::prelude::*;
use crate::components::{FixtureKind, ItemRelation, has_id};
use crate::grid::TileId;
use crate::ids::ItemId;
use crate::invariants::{
    fixture_ok, fixture_owner, item_ok, law_no_errors_iff_world_ok, pawn_ok, pawn_owner, world_errors, world_ok,
};
use crate::loader::{
    fixture_inv_total, fixtures_loaded, last_fixture_on, last_ground_on, last_pawn_on, lemma_fixture_total_mono,
    lemma_fixture_total_step, lemma_inv_total_mono, lemma_inv_total_step, map_cfg, pawn_inv_total, pawns_loaded,
    tile_items, world_loaded,
};
use crate::scenario::{FixtureDef, MapSize, PawnDef, ScenarioDef};
use crate::world::{FixtureEntity, ItemEntity, PawnEntity, SimWorld};

verus! {

/// No two items in `s` lie on the same tile.
pub open spec fn ground_apart(s: Seq<ItemEntity>) -> bool {
    forall|a: int, b: int|
        0 <= a < b < s.len() && s[a].relation is OnGround ==> #[trigger] s[a].relation != #[trigger] s[b].relation
}

/// What a load needs, beyond `world_loaded`, for its world to pass validation:
/// every item it describes has a quantity, every tile the scenario asks for
/// lies on the map, and the pawns, the fixtures and the items on the ground
/// each ended on tiles of their own (where the random draws decide).
pub open spec fn load_sound(w: SimWorld, def: ScenarioDef, pw: Seq<Option<TileId>>, fw: Seq<Option<TileId>>) -> bool {
    let cfg = map_cfg(def.map.size);
    let ti = tile_items(def.map.tiles@);
    &&& forall|k: int, j: int|
        0 <= k < def.pawns@.len() && 0 <= j < def.pawns@[k].inventory@.len() ==> #[trigger] def.pawns@[k].inventory@[j].qty
            > 0
    &&& forall|k: int, j: int|
        0 <= k < def.fixtures@.len() && 0 <= j < def.fixtures@[k].inventory@.len()
            ==> #[trigger] def.fixtures@[k].inventory@[j].qty > 0
    &&& forall|k: int| 0 <= k < ti.len() ==> (#[trigger] ti[k]).0.qty > 0 && cfg.contains(ti[k].1)
    &&& forall|k: int| 0 <= k < def.pawns@.len() ==> ((#[trigger] pw[k]) matches Some(t) ==> cfg.contains(t))
    &&& forall|k: int| 0 <= k < def.fixtures@.len() ==> ((#[trigger] fw[k]) matches Some(t) ==> cfg.contains(t))
    &&& forall|a: int, b: int| 0 <= a < b < w.pawns@.len() ==> w.pawns@[a].pos != w.pawns@[b].pos
    &&& forall|a: int, b: int| 0 <= a < b < w.fixtures@.len() ==> w.fixtures@[a].pos != w.fixtures@[b].pos
    &&& ground_apart(w.items@)
}

proof fn lemma_last_pawn(s: Seq<PawnEntity>, k: int)
    requires
        0 <= k < s.len(),
        forall|a: int, b: int| 0 <= a < b < s.len() ==> s[a].pos != s[b].pos,
    ensures
        last_pawn_on(s, s[k].pos) == Some(s[k].pawn.id),
    decreases s.len(),
{
    if k < s.len() - 1 {
        assert(s[k].pos != s[s.len() - 1].pos);
        let t = s.drop_last();
        assert forall|a: int, b: int| 0 <= a < b < t.len() implies t[a].pos != t[b].pos by {
            assert(t[a] == s[a] && t[b] == s[b]);
        }
        lemma_last_pawn(t, k);
        assert(t[k] == s[k]);
    }
}

proof fn lemma_last_fixture(s: Seq<FixtureEntity>, k: int)
    requires
        0 <= k < s.len(),
        forall|a: int, b: int| 0 <= a < b < s.len() ==> s[a].pos != s[b].pos,
    ensures
        last_fixture_on(s, s[k].pos) == Some(s[k].fixture.id),
    decreases s.len(),
{
    if k < s.len() - 1 {
        assert(s[k].pos != s[s.len() - 1].pos);
        let t = s.drop_last();
        assert forall|a: int, b: int| 0 <= a < b < t.len() implies t[a].pos != t[b].pos by {
            assert(t[a] == s[a] && t[b] == s[b]);
        }
        lemma_last_fixture(t, k);
        assert(t[k] == s[k]);
    }
}

proof fn lemma_last_ground(s: Seq<ItemEntity>, k: int, t: TileId)
    requires
        0 <= k < s.len(),
        s[k].relation == ItemRelation::OnGround(t),
        ground_apart(s),
    ensures
        last_ground_on(s, t) == Some(s[k].item.id),
    decreases s.len(),
{
    if k < s.len() - 1 {
        assert(s[k].relation != s[s.len() - 1].relation);
        let u = s.drop_last();
        assert forall|a: int, b: int| 0 <= a < b < u.len() && u[a].relation is OnGround implies #[trigger] u[a].relation
            != #[trigger] u[b].relation by {
            assert(u[a] == s[a] && u[b] == s[b]);
        }
        lemma_last_ground(u, k, t);
        assert(u[k] == s[k]);
    }
}

/// The pawn whose inventory items hold place `m`.
proof fn lemma_pawn_segment(defs: Seq<PawnDef>, m: int, n: int) -> (k: int)
    requires
        0 <= n <= defs.len(),
        0 <= m < pawn_inv_total(defs.take(n)),
    ensures
        0 <= k < n,
        pawn_inv_total(defs.take(k)) <= m < pawn_inv_total(defs.take(k + 1)),
    decreases n,
{
    if n == 0 {
        assert(defs.take(0) =~= Seq::<PawnDef>::empty());
        0
    } else {
        lemma_inv_total_step(defs, n - 1);
        if m >= pawn_inv_total(defs.take(n - 1)) {
            n - 1
        } else {
            lemma_pawn_segment(defs, m, n - 1)
        }
    }
}

/// The fixture whose inventory items hold place `m`.
proof fn lemma_fixture_segment(defs: Seq<FixtureDef>, m: int, n: int) -> (k: int)
    requires
        0 <= n <= defs.len(),
        0 <= m < fixture_inv_total(defs.take(n)),
    ensures
        0 <= k < n,
        fixture_inv_total(defs.take(k)) <= m < fixture_inv_total(defs.take(k + 1)),
    decreases n,
{
    if n == 0 {
        assert(defs.take(0) =~= Seq::<FixtureDef>::empty());
        0
    } else {
        lemma_fixture_total_step(defs, n - 1);
        if m >= fixture_inv_total(defs.take(n - 1)) {
            n - 1
        } else {
            lemma_fixture_segment(defs, m, n - 1)
        }
    }
}

proof fn lemma_pawn_owner(ps: Seq<PawnEntity>, id: ItemId, k: int, n: int)
    requires
        0 <= n <= ps.len(),
        forall|k2: int| 0 <= k2 < n && k2 != k ==> !has_id(#[trigger] ps[k2].pawn.inventory@, id),
        0 <= k < n ==> has_id(ps[k].pawn.inventory@, id),
    ensures
        pawn_owner(ps, id, n) == if 0 <= k < n { Some(ps[k].pawn.id) } else { None },
    decreases n,
{
    if n > 0 {
        lemma_pawn_owner(ps, id, k, n - 1);
    }
}

proof fn lemma_fixture_owner(fs: Seq<FixtureEntity>, id: ItemId, k: int, n: int)
    requires
        0 <= n <= fs.len(),
        forall|k2: int| 0 <= k2 < n && k2 != k ==> !has_id(#[trigger] fs[k2].fixture.inventory@, id),
        0 <= k < n ==> has_id(fs[k].fixture.inventory@, id),
    ensures
        fixture_owner(fs, id, n) == if 0 <= k < n { Some(fs[k].fixture.id) } else { None },
    decreases n,
{
    if n > 0 {
        lemma_fixture_owner(fs, id, k, n - 1);
    }
}

/// Entry `j` of the inventory of loaded pawn `k` is the item record at place
/// `T(k) + j`, carried by that pawn, with the quantity its definition gives.
proof fn lemma_pawn_entry(
    pawns: Seq<PawnEntity>,
    items: Seq<ItemEntity>,
    defs: Seq<PawnDef>,
    wants: Seq<Option<TileId>>,
    size: MapSize,
    k: int,
    j: int,
)
    requires
        pawns_loaded(pawns, items, defs, wants, size),
        0 <= k < defs.len(),
        0 <= j < defs[k].inventory@.len(),
    ensures
        pawns[k].pawn.inventory@.len() == defs[k].inventory@.len(),
        pawn_inv_total(defs.take(k + 1)) == pawn_inv_total(defs.take(k)) + defs[k].inventory@.len(),
        pawn_inv_total(defs.take(k + 1)) <= items.len(),
        items[pawn_inv_total(defs.take(k)) + j].item.id == pawns[k].pawn.inventory@[j].0,
        items[pawn_inv_total(defs.take(k)) + j].item.qty == defs[k].inventory@[j].qty,
        items[pawn_inv_total(defs.take(k)) + j].relation == ItemRelation::CarriedBy(pawns[k].pawn.id),
{
    let a = pawn_inv_total(defs.take(k)) as int;
    let b = pawn_inv_total(defs.take(k + 1)) as int;
    lemma_inv_total_step(defs, k);
    lemma_inv_total_mono(defs, k + 1, defs.len() as int);
    assert(defs.take(defs.len() as int) =~= defs);
    let seg = items.subrange(a, b);
    assert(pawns[k] == pawns[k]);
    assert(seg[j] == items[a + j]);
}

/// Entry `j` of the inventory of loaded fixture `k` is the item record at
/// place `F(k) + j` of the fixtures' items, in that fixture.
proof fn lemma_fixture_entry(
    fixtures: Seq<FixtureEntity>,
    items: Seq<ItemEntity>,
    defs: Seq<FixtureDef>,
    wants: Seq<Option<TileId>>,
    size: MapSize,
    k: int,
    j: int,
)
    requires
        fixtures_loaded(fixtures, items, defs, wants, size),
        0 <= k < defs.len(),
        0 <= j < defs[k].inventory@.len(),
    ensures
        fixtures[k].fixture.inventory@.len() == defs[k].inventory@.len(),
        fixture_inv_total(defs.take(k + 1)) == fixture_inv_total(defs.take(k)) + defs[k].inventory@.len(),
        fixture_inv_total(defs.take(k + 1)) <= items.len(),
        items[fixture_inv_total(defs.take(k)) + j].item.id == fixtures[k].fixture.inventory@[j].0,
        items[fixture_inv_total(defs.take(k)) + j].item.qty == defs[k].inventory@[j].qty,
        items[fixture_inv_total(defs.take(k)) + j].relation == ItemRelation::InFixture(fixtures[k].fixture.id),
{
    let a = fixture_inv_total(defs.take(k)) as int;
    let b = fixture_inv_total(defs.take(k + 1)) as int;
    lemma_fixture_total_step(defs, k);
    lemma_fixture_total_mono(defs, k + 1, defs.len() as int);
    assert(defs.take(defs.len() as int) =~= defs);
    let seg = items.subrange(a, b);
    assert(fixtures[k] == fixtures[k]);
    assert(seg[j] == items[a + j]);
}

/// An item id listed by loaded pawn `k` is that of an item record in the
/// pawn's own stretch of the item list.
proof fn lemma_pawn_lists(
    w: SimWorld,
    def: ScenarioDef,
    fallback: u64,
    pw: Seq<Option<TileId>>,
    fw: Seq<Option<TileId>>,
    k: int,
    x: ItemId,
) -> (m: int)
    requires
        world_loaded(w, def, fallback, pw, fw),
        0 <= k < w.pawns@.len(),
        has_id(w.pawns@[k].pawn.inventory@, x),
    ensures
        pawn_inv_total(def.pawns@.take(k)) <= m < pawn_inv_total(def.pawns@.take(k + 1)),
        m < pawn_inv_total(def.pawns@),
        w.items@[m].item.id == x,
{
    let defs = def.pawns@;
    let np = pawn_inv_total(defs) as int;
    let items = w.items@.take(np);
    assert(w.pawns@[k] == w.pawns@[k]);
    let inv = w.pawns@[k].pawn.inventory@;
    let j = choose|j: int| 0 <= j < inv.len() && inv[j].0 == x;
    lemma_pawn_entry(w.pawns@, items, defs, pw, def.map.size, k, j);
    assert(defs.take(defs.len() as int) =~= defs);
    let m = pawn_inv_total(defs.take(k)) + j;
    assert(items[m] == w.items@[m]);
    m
}

/// An item id listed by loaded fixture `k` is that of an item record in the
/// fixture's own stretch of the item list, after the pawns' items.
proof fn lemma_fixture_lists(
    w: SimWorld,
    def: ScenarioDef,
    fallback: u64,
    pw: Seq<Option<TileId>>,
    fw: Seq<Option<TileId>>,
    k: int,
    x: ItemId,
) -> (m: int)
    requires
        world_loaded(w, def, fallback, pw, fw),
        0 <= k < w.fixtures@.len(),
        has_id(w.fixtures@[k].fixture.inventory@, x),
    ensures
        pawn_inv_total(def.pawns@) + fixture_inv_total(def.fixtures@.take(k)) <= m,
        m < pawn_inv_total(def.pawns@) + fixture_inv_total(def.fixtures@.take(k + 1)),
        m < pawn_inv_total(def.pawns@) + fixture_inv_total(def.fixtures@),
        w.items@[m].item.id == x,
{
    let defs = def.fixtures@;
    let np = pawn_inv_total(def.pawns@) as int;
    let nf = fixture_inv_total(defs) as int;
    let items = w.items@.subrange(np, np + nf);
    assert(w.fixtures@[k] == w.fixtures@[k]);
    let inv = w.fixtures@[k].fixture.inventory@;
    let j = choose|j: int| 0 <= j < inv.len() && inv[j].0 == x;
    lemma_fixture_entry(w.fixtures@, items, defs, fw, def.map.size, k, j);
    assert(defs.take(defs.len() as int) =~= defs);
    let m = np + fixture_inv_total(defs.take(k)) + j;
    assert(items[m - np] == w.items@[m]);
    m
}

/// A loaded pawn record passes validation.
proof fn lemma_loaded_pawn_ok(
    w: SimWorld,
    def: ScenarioDef,
    fallback: u64,
    pw: Seq<Option<TileId>>,
    fw: Seq<Option<TileId>>,
    k: int,
)
    requires
        world_loaded(w, def, fallback, pw, fw),
        load_sound(w, def, pw, fw),
        0 <= k < w.pawns@.len(),
    ensures
        pawn_ok(&w, w.pawns@[k]),
{
    let cfg = map_cfg(def.map.size);
    let p = w.pawns@[k];
    assert(pw[k] matches Some(t) ==> cfg.contains(t));
    assert(cfg.contains(p.pos));
    lemma_last_pawn(w.pawns@, k);
    assert(w.pawn_tiles.at(p.pos) == last_pawn_on(w.pawns@, p.pos));
}

/// A loaded fixture record passes validation.
proof fn lemma_loaded_fixture_ok(
    w: SimWorld,
    def: ScenarioDef,
    fallback: u64,
    pw: Seq<Option<TileId>>,
    fw: Seq<Option<TileId>>,
    k: int,
)
    requires
        world_loaded(w, def, fallback, pw, fw),
        load_sound(w, def, pw, fw),
        0 <= k < w.fixtures@.len(),
    ensures
        fixture_ok(&w, w.fixtures@[k]),
{
    let cfg = map_cfg(def.map.size);
    let f = w.fixtures@[k];
    assert(fw[k] matches Some(t) ==> cfg.contains(t));
    assert(cfg.contains(f.pos));
    lemma_last_fixture(w.fixtures@, k);
    assert(w.fixture_tiles.at(f.pos) == last_fixture_on(w.fixtures@, f.pos));
}

/// An item a loaded pawn carries passes validation.
proof fn lemma_loaded_pawn_item_ok(
    w: SimWorld,
    def: ScenarioDef,
    fallback: u64,
    pw: Seq<Option<TileId>>,
    fw: Seq<Option<TileId>>,
    m: int,
)
    requires
        world_loaded(w, def, fallback, pw, fw),
        load_sound(w, def, pw, fw),
        0 <= m < pawn_inv_total(def.pawns@),
    ensures
        item_ok(&w, w.items@[m]),
{
    let defs = def.pawns@;
    let np = pawn_inv_total(defs) as int;
    let items = w.items@.take(np);
    assert(defs.take(defs.len() as int) =~= defs);
    let k = lemma_pawn_segment(defs, m, defs.len() as int);
    lemma_inv_total_step(defs, k);
    let j = m - pawn_inv_total(defs.take(k));
    lemma_pawn_entry(w.pawns@, items, defs, pw, def.map.size, k, j);
    assert(items[m] == w.items@[m]);
    let id = w.items@[m].item.id;
    assert(def.pawns@[k].inventory@[j].qty > 0);
    let inv = w.pawns@[k].pawn.inventory@;
    assert(inv[j].0 == id);
    assert(has_id(inv, id));
    assert forall|k2: int| 0 <= k2 < w.pawns@.len() && k2 != k implies !has_id(
        #[trigger] w.pawns@[k2].pawn.inventory@,
        id,
    ) by {
        if has_id(w.pawns@[k2].pawn.inventory@, id) {
            let m2 = lemma_pawn_lists(w, def, fallback, pw, fw, k2, id);
            assert(m2 == m);
            if k2 < k {
                lemma_inv_total_mono(defs, k2 + 1, k);
            } else {
                lemma_inv_total_mono(defs, k + 1, k2);
            }
        }
    }
    lemma_pawn_owner(w.pawns@, id, k, w.pawns@.len() as int);
    assert forall|k2: int| 0 <= k2 < w.fixtures@.len() && k2 != -1 implies !has_id(
        #[trigger] w.fixtures@[k2].fixture.inventory@,
        id,
    ) by {
        if has_id(w.fixtures@[k2].fixture.inventory@, id) {
            let m2 = lemma_fixture_lists(w, def, fallback, pw, fw, k2, id);
            assert(m2 != m);
        }
    }
    lemma_fixture_owner(w.fixtures@, id, -1, w.fixtures@.len() as int);
}

/// An item in a loaded fixture passes validation.
proof fn lemma_loaded_fixture_item_ok(
    w: SimWorld,
    def: ScenarioDef,
    fallback: u64,
    pw: Seq<Option<TileId>>,
    fw: Seq<Option<TileId>>,
    m: int,
)
    requires
        world_loaded(w, def, fallback, pw, fw),
        load_sound(w, def, pw, fw),
        pawn_inv_total(def.pawns@) <= m < pawn_inv_total(def.pawns@) + fixture_inv_total(def.fixtures@),
    ensures
        item_ok(&w, w.items@[m]),
{
    let defs = def.fixtures@;
    let np = pawn_inv_total(def.pawns@) as int;
    let nf = fixture_inv_total(defs) as int;
    let items = w.items@.subrange(np, np + nf);
    assert(defs.take(defs.len() as int) =~= defs);
    let k = lemma_fixture_segment(defs, m - np, defs.len() as int);
    lemma_fixture_total_step(defs, k);
    let j = m - np - fixture_inv_total(defs.take(k));
    lemma_fixture_entry(w.fixtures@, items, defs, fw, def.map.size, k, j);
    assert(items[m - np] == w.items@[m]);
    let id = w.items@[m].item.id;
    assert(def.fixtures@[k].inventory@[j].qty > 0);
    let inv = w.fixtures@[k].fixture.inventory@;
    assert(inv[j].0 == id);
    assert(has_id(inv, id));
    assert forall|k2: int| 0 <= k2 < w.fixtures@.len() && k2 != k implies !has_id(
        #[trigger] w.fixtures@[k2].fixture.inventory@,
        id,
    ) by {
        if has_id(w.fixtures@[k2].fixture.inventory@, id) {
            let m2 = lemma_fixture_lists(w, def, fallback, pw, fw, k2, id);
            assert(m2 == m);
            if k2 < k {
                lemma_fixture_total_mono(defs, k2 + 1, k);
            } else {
                lemma_fixture_total_mono(defs, k + 1, k2);
            }
        }
    }
    lemma_fixture_owner(w.fixtures@, id, k, w.fixtures@.len() as int);
    assert forall|k2: int| 0 <= k2 < w.pawns@.len() && k2 != -1 implies !has_id(
        #[trigger] w.pawns@[k2].pawn.inventory@,
        id,
    ) by {
        if has_id(w.pawns@[k2].pawn.inventory@, id) {
            let m2 = lemma_pawn_lists(w, def, fallback, pw, fw, k2, id);
            assert(m2 != m);
        }
    }
    lemma_pawn_owner(w.pawns@, id, -1, w.pawns@.len() as int);
}

/// An item laid on the ground by a load passes validation.
proof fn lemma_loaded_ground_item_ok(
    w: SimWorld,
    def: ScenarioDef,
    fallback: u64,
    pw: Seq<Option<TileId>>,
    fw: Seq<Option<TileId>>,
    m: int,
)
    requires
        world_loaded(w, def, fallback, pw, fw),
        load_sound(w, def, pw, fw),
        pawn_inv_total(def.pawns@) + fixture_inv_total(def.fixtures@) <= m < w.items@.len(),
    ensures
        item_ok(&w, w.items@[m]),
{
    let cfg = map_cfg(def.map.size);
    let np = pawn_inv_total(def.pawns@) as int;
    let nf = fixture_inv_total(def.fixtures@) as int;
    let gs = w.items@.skip(np + nf);
    let ti = tile_items(def.map.tiles@);
    let g = m - np - nf;
    assert(gs[g] == w.items@[m]);
    let it = w.items@[m];
    let id = it.item.id;
    assert(ti[g].0.qty > 0 && cfg.contains(ti[g].1));
    let p = crate::loader::ground_tile(it.relation);
    assert(it.relation == ItemRelation::OnGround(p));
    assert(cfg.contains(p));
    assert(ground_apart(gs)) by {
        assert forall|a: int, b: int| 0 <= a < b < gs.len() && gs[a].relation is OnGround implies #[trigger] gs[a].relation
            != #[trigger] gs[b].relation by {
            assert(gs[a] == w.items@[a + np + nf] && gs[b] == w.items@[b + np + nf]);
        }
    }
    lemma_last_ground(gs, g, p);
    assert(w.item_tiles.at(p) == last_ground_on(gs, p));
    assert forall|k2: int| 0 <= k2 < w.pawns@.len() && k2 != -1 implies !has_id(
        #[trigger] w.pawns@[k2].pawn.inventory@,
        id,
    ) by {
        if has_id(w.pawns@[k2].pawn.inventory@, id) {
            let m2 = lemma_pawn_lists(w, def, fallback, pw, fw, k2, id);
            assert(m2 != m);
        }
    }
    lemma_pawn_owner(w.pawns@, id, -1, w.pawns@.len() as int);
    assert forall|k2: int| 0 <= k2 < w.fixtures@.len() && k2 != -1 implies !has_id(
        #[trigger] w.fixtures@[k2].fixture.inventory@,
        id,
    ) by {
        if has_id(w.fixtures@[k2].fixture.inventory@, id) {
            let m2 = lemma_fixture_lists(w, def, fallback, pw, fw, k2, id);
            assert(m2 != m);
        }
    }
    lemma_fixture_owner(w.fixtures@, id, -1, w.fixtures@.len() as int);
}

/// Loading a scenario gives a world the validator accepts, whenever every item
/// the scenario describes has a quantity, every tile it asks for lies on the
/// map, and pawns, fixtures and items on the ground came to stand on tiles of
/// their own (`load_sound`).
pub proof fn law_loaded_world_valid(
    w: SimWorld,
    def: ScenarioDef,
    fallback: u64,
    pw: Seq<Option<TileId>>,
    fw: Seq<Option<TileId>>,
)
    requires
        world_loaded(w, def, fallback, pw, fw),
        load_sound(w, def, pw, fw),
    ensures
        world_ok(&w),
        world_errors(&w).len() == 0,
{
    let np = pawn_inv_total(def.pawns@) as int;
    let nf = fixture_inv_total(def.fixtures@) as int;
    assert forall|k: int| 0 <= k < w.pawns@.len() implies #[trigger] pawn_ok(&w, w.pawns@[k]) by {
        lemma_loaded_pawn_ok(w, def, fallback, pw, fw, k);
    }
    assert forall|k: int| 0 <= k < w.fixtures@.len() implies #[trigger] fixture_ok(&w, w.fixtures@[k]) by {
        lemma_loaded_fixture_ok(w, def, fallback, pw, fw, k);
    }
    assert forall|m: int| 0 <= m < w.items@.len() implies #[trigger] item_ok(&w, w.items@[m]) by {
        if m < np {
            lemma_loaded_pawn_item_ok(w, def, fallback, pw, fw, m);
        } else if m < np + nf {
            lemma_loaded_fixture_item_ok(w, def, fallback, pw, fw, m);
        } else {
            lemma_loaded_ground_item_ok(w, def, fallback, pw, fw, m);
        }
    }
    law_no_errors_iff_world_ok(&w);
}

} // verus!
