//! Building a world from a scenario definition: schematic positions, the map,
//! pawns with their inventories, fixtures with theirs, and the items lying on
//! the map.
use vstd::prelude::*;
use rand::rngs::SmallRng;
use rand::{Rng, SeedableRng};
use crate::components::{
    Fixture, FixtureKind, Harvestable, Inventory, Item, ItemKind, ItemRelation, Pawn, fixture_kind_named, item_kind_named,
    kind_word,
};
use crate::fixed_point::{Q40p24, scale};
use crate::grid::{GridConfig, TileId};
use crate::ids::{Entity, FixtureId, IdIndex, ItemId, PawnId, SimId, next_alloc, next_free, lemma_next_alloc_dom};
use crate::scenario::ItemDef;
use crate::tasks::{JobKind, TaskSpecKind, WorkPriority};
use crate::text::wrapped_number;
use crate::world::{FixtureEntity, ItemEntity, PawnEntity, SimWorld, frame, has_fixture, has_pawn, touch_none, Touch, indexed, pawns_indexed, fixtures_indexed, items_indexed, lemma_pawns_indexed_insert, lemma_pawns_indexed_push, lemma_fixtures_indexed_insert, lemma_fixtures_indexed_push, lemma_items_indexed_push};
use crate::tile_index::tiles_set;
use crate::scenario::{FixtureDef, MapSize, TileDef, PawnDef, ScenarioDef, parse_schematic, schematic_m};
use crate::text::{nat_decimal, tile_debug, tile_text, u64_decimal};

verus! {

/// The small, fast generator that picks positions for things placed without one.
#[verifier::external_type_specification]
#[verifier::external_body]
pub struct ExSmallRng(SmallRng);

/// `SmallRng::seed_from_u64`. Its stream is not stated: it depends on the
/// platform (the generator differs between 32- and 64-bit targets).
#[verifier::external_body]
fn seeded_rng(seed: u64) -> (r: SmallRng) {
    SmallRng::seed_from_u64(seed)
}

/// `Rng::gen_range` on `lo..hi`: a number of that range (which must not be empty).
#[verifier::external_body]
fn gen_range_i32(rng: &mut SmallRng, lo: i32, hi: i32) -> (r: i32)
    requires
        lo < hi,
    ensures
        lo <= r < hi,
{
    rng.gen_range(lo..hi)
}

/// The grid of a map of `size`.
pub open spec fn map_cfg(size: MapSize) -> GridConfig {
    GridConfig { width: size.x, height: size.y }
}

/// A random position can be drawn on a map of `size`: both sides, taken as
/// `i32`, are positive.
pub open spec fn can_sample(size: MapSize) -> bool {
    0 < size.x <= i32::MAX && 0 < size.y <= i32::MAX
}

/// The message of drawing from an empty range.
pub open spec fn empty_range_msg() -> Seq<char> {
    "cannot sample empty range"@
}

fn empty_range_error() -> (r: String)
    ensures
        r@ == empty_range_msg(),
{
    String::from_str("cannot sample empty range")
}

/// A random tile of the map.
fn rand_pos(rng: &mut SmallRng, size: MapSize) -> (r: Result<TileId, String>)
    ensures
        can_sample(size) ==> (r matches Ok(t) && map_cfg(size).contains(t)),
        !can_sample(size) ==> (r matches Err(e) && e@ == empty_range_msg()),
{
    if size.x == 0 || size.x > 0x7fff_ffff || size.y == 0 || size.y > 0x7fff_ffff {
        return Err(empty_range_error());
    }
    let x = gen_range_i32(rng, 0, size.x as i32);
    let y = gen_range_i32(rng, 0, size.y as i32);
    Ok(TileId { x, y })
}

/// A coordinate brought into `0..n`, `n` taken as `i32`: negative values
/// become 0, values from `n` on become `n - 1`.
pub open spec fn clamp_coord(v: i32, n: u32) -> int {
    let m = (n as i32) as int;
    let v1 = if v < 0 {
        0
    } else {
        v as int
    };
    if v1 >= m {
        m - 1
    } else {
        v1
    }
}

/// The tile `p` moved onto the map of `size`, coordinate by coordinate.
pub fn clamp_pos(p: TileId, size: MapSize) -> (r: TileId)
    requires
        size.x != 0x8000_0000,
        size.y != 0x8000_0000,
    ensures
        r.x == clamp_coord(p.x, size.x),
        r.y == clamp_coord(p.y, size.y),
{
    let sx = size.x;
    let sy = size.y;
    assert((sx as i32) > i32::MIN) by (bit_vector)
        requires
            sx != 0x8000_0000u32,
    ;
    assert((sy as i32) > i32::MIN) by (bit_vector)
        requires
            sy != 0x8000_0000u32,
    ;
    let mut p = p;
    if p.x < 0 {
        p.x = 0;
    }
    if p.y < 0 {
        p.y = 0;
    }
    if p.x >= size.x as i32 {
        p.x = size.x as i32 - 1;
    }
    if p.y >= size.y as i32 {
        p.y = size.y as i32 - 1;
    }
    p
}

/// The rectangle spanned by `a` and `b` once both are moved onto the map: its
/// lowest and its highest corner.
pub fn norm_rect(a: TileId, b: TileId, size: MapSize) -> (r: (TileId, TileId))
    requires
        size.x != 0x8000_0000,
        size.y != 0x8000_0000,
    ensures
        r.0.x == if clamp_coord(a.x, size.x) <= clamp_coord(b.x, size.x) { clamp_coord(a.x, size.x) } else { clamp_coord(b.x, size.x) },
        r.0.y == if clamp_coord(a.y, size.y) <= clamp_coord(b.y, size.y) { clamp_coord(a.y, size.y) } else { clamp_coord(b.y, size.y) },
        r.1.x == if clamp_coord(a.x, size.x) >= clamp_coord(b.x, size.x) { clamp_coord(a.x, size.x) } else { clamp_coord(b.x, size.x) },
        r.1.y == if clamp_coord(a.y, size.y) >= clamp_coord(b.y, size.y) { clamp_coord(a.y, size.y) } else { clamp_coord(b.y, size.y) },
{
    let a = clamp_pos(a, size);
    let b = clamp_pos(b, size);
    let minx = if a.x <= b.x { a.x } else { b.x };
    let miny = if a.y <= b.y { a.y } else { b.y };
    let maxx = if a.x >= b.x { a.x } else { b.x };
    let maxy = if a.y >= b.y { a.y } else { b.y };
    (TileId { x: minx, y: miny }, TileId { x: maxx, y: maxy })
}

/// Where a thing that asked for `want` lands, given the positions `used` by
/// the things of its kind placed before it: at `want` when that is free, else
/// on some tile of the map.
pub open spec fn placed_at(want: Option<TileId>, used: Seq<TileId>, size: MapSize, p: TileId) -> bool {
    if want is Some && !used.contains(want->0) {
        p == want->0
    } else {
        map_cfg(size).contains(p)
    }
}

/// Whether `used` holds `t`.
fn used_contains(used: &Vec<TileId>, t: TileId) -> (r: bool)
    ensures
        r == used@.contains(t),
{
    let mut i: usize = 0;
    while i < used.len()
        invariant
            i <= used@.len(),
            forall|j: int| 0 <= j < i ==> used@[j] != t,
        decreases used@.len() - i,
    {
        if used[i].x == t.x && used[i].y == t.y {
            assert(used@[i as int] == t);
            return true;
        }
        i = i + 1;
    }
    false
}

/// Place a thing that asked for `want` (a random tile when `None`): while the
/// tile is taken, draw another, up to a thousand times. The chosen tile is
/// added to `used`.
fn unique_pos(used: &mut Vec<TileId>, want: Option<TileId>, rng: &mut SmallRng, size: MapSize) -> (r: Result<
    TileId,
    String,
>)
    ensures
        r matches Ok(p) ==> placed_at(want, old(used)@, size, p) && final(used)@ == old(used)@.push(p),
        r is Err ==> final(used)@ == old(used)@,
        r is Err <==> !can_sample(size) && !(want is Some && !old(used)@.contains(want->0)),
        r matches Err(e) ==> e@ == empty_range_msg(),
{
    let mut pos = match want {
        Some(p) => p,
        None => match rand_pos(rng, size) {
            Ok(p) => p,
            Err(e) => return Err(e),
        },
    };
    let mut tries: u32 = 0;
    let ghost drawn = want is None;
    while used_contains(used, pos) && tries < 1000
        invariant
            used@ == old(used)@,
            tries <= 1000,
            drawn ==> map_cfg(size).contains(pos),
            !drawn ==> want == Some(pos),
            drawn ==> can_sample(size),
            drawn ==> (want is None || old(used)@.contains(want->0)),
            !drawn ==> tries == 0,
        decreases 1000 - tries,
    {
        pos = match rand_pos(rng, size) {
            Ok(p) => p,
            Err(e) => return Err(e),
        };
        proof {
            drawn = true;
        }
        tries = tries + 1;
    }
    used.push(pos);
    Ok(pos)
}

// ---- positions from the schematic ----

/// The tile the schematic placement list `ps` gives id `id` (its first entry).
pub open spec fn schematic_pos(ps: Seq<(u64, TileId)>, id: u64) -> Option<TileId>
    decreases ps.len(),
{
    if ps.len() == 0 {
        None
    } else if ps[0].0 == id {
        Some(ps[0].1)
    } else {
        schematic_pos(ps.drop_first(), id)
    }
}

/// The ids of pawn definitions, in order.
pub open spec fn pawn_def_ids(defs: Seq<PawnDef>) -> Seq<Option<u64>> {
    Seq::new(defs.len(), |i: int| defs[i].id)
}

/// The positions pawn definitions ask for, in order.
pub open spec fn pawn_def_wants(defs: Seq<PawnDef>) -> Seq<Option<TileId>> {
    Seq::new(defs.len(), |i: int| defs[i].pos)
}

/// The ids of fixture definitions, in order.
pub open spec fn fixture_def_ids(defs: Seq<FixtureDef>) -> Seq<Option<u64>> {
    Seq::new(defs.len(), |i: int| defs[i].id)
}

/// The positions fixture definitions ask for, in order.
pub open spec fn fixture_def_wants(defs: Seq<FixtureDef>) -> Seq<Option<TileId>> {
    Seq::new(defs.len(), |i: int| defs[i].pos)
}

/// Some definition carries id `k`.
pub open spec fn id_listed(ids: Seq<Option<u64>>, k: u64) -> bool {
    ids.contains(Some(k))
}

/// Every id the schematic places is carried by some definition.
pub open spec fn all_listed(ps: Seq<(u64, TileId)>, ids: Seq<Option<u64>>) -> bool {
    forall|j: int| 0 <= j < ps.len() ==> id_listed(ids, #[trigger] ps[j].0)
}

/// "Schematic references {what} id {k} not present in [{list}] list".
pub open spec fn unlisted_msg(what: Seq<char>, list: Seq<char>, k: u64) -> Seq<char> {
    "Schematic references "@ + what + " id "@ + nat_decimal(k as nat) + " not present in ["@ + list
        + "] list"@
}

/// "Schematic position for {what} id={k} conflicts with explicit pos: {t:?} vs {e:?}".
pub open spec fn conflict_msg(what: Seq<char>, k: u64, t: TileId, e: TileId) -> Seq<char> {
    "Schematic position for "@ + what + " id="@ + nat_decimal(k as nat) + " conflicts with explicit pos: "@
        + tile_debug(t.x as int, t.y as int) + " vs "@ + tile_debug(e.x as int, e.y as int)
}

/// The position of one definition with id `id` asking for `want`, once the
/// schematic `ps` is applied: the schematic's tile, which must agree with an
/// explicit position.
pub open spec fn merged_one(id: Option<u64>, want: Option<TileId>, ps: Seq<(u64, TileId)>, what: Seq<char>) -> Result<
    Option<TileId>,
    Seq<char>,
> {
    match id {
        Some(k) => match schematic_pos(ps, k) {
            Some(t) => if want is Some && want->0 != t {
                Err(conflict_msg(what, k, t, want->0))
            } else {
                Ok(Some(t))
            },
            None => Ok(want),
        },
        None => Ok(want),
    }
}

/// The positions of the definitions from the `i`-th on, once the schematic is
/// applied; the first conflict in order is the error.
pub open spec fn merged_from(
    ids: Seq<Option<u64>>,
    wants: Seq<Option<TileId>>,
    ps: Seq<(u64, TileId)>,
    what: Seq<char>,
    i: int,
) -> Result<Seq<Option<TileId>>, Seq<char>>
    decreases ids.len() - i,
{
    if i >= ids.len() || i < 0 {
        Ok(Seq::empty())
    } else {
        match merged_one(ids[i], wants[i], ps, what) {
            Err(e) => Err(e),
            Ok(p) => match merged_from(ids, wants, ps, what, i + 1) {
                Ok(rest) => Ok(seq![p] + rest),
                Err(e) => Err(e),
            },
        }
    }
}

proof fn lemma_merged_len(
    ids: Seq<Option<u64>>,
    wants: Seq<Option<TileId>>,
    ps: Seq<(u64, TileId)>,
    what: Seq<char>,
    i: int,
)
    requires
        0 <= i <= ids.len(),
    ensures
        merged_from(ids, wants, ps, what, i) matches Ok(m) ==> m.len() == ids.len() - i,
    decreases ids.len() - i,
{
    if i < ids.len() {
        lemma_merged_len(ids, wants, ps, what, i + 1);
    }
}

/// The tile `ps` gives `id` (`schematic_pos`).
fn find_schematic_pos(ps: &Vec<(u64, TileId)>, id: u64) -> (r: Option<TileId>)
    ensures
        r == schematic_pos(ps@, id),
{
    let mut i: usize = 0;
    assert(ps@.skip(0) =~= ps@);
    while i < ps.len()
        invariant
            i <= ps@.len(),
            schematic_pos(ps@, id) == schematic_pos(ps@.skip(i as int), id),
        decreases ps@.len() - i,
    {
        assert(ps@.skip(i as int).drop_first() =~= ps@.skip(i + 1));
        if ps[i].0 == id {
            return Some(ps[i].1);
        }
        i = i + 1;
    }
    None
}

/// Whether some entry of `ids` is `Some(k)`.
fn ids_contain(ids: &Vec<Option<u64>>, k: u64) -> (r: bool)
    ensures
        r == id_listed(ids@, k),
{
    let mut i: usize = 0;
    while i < ids.len()
        invariant
            i <= ids@.len(),
            forall|j: int| 0 <= j < i ==> ids@[j] != Some(k),
        decreases ids@.len() - i,
    {
        if let Some(v) = ids[i] {
            if v == k {
                assert(ids@[i as int] == Some(k));
                return true;
            }
        }
        i = i + 1;
    }
    false
}

/// Every id the schematic places must be carried by a definition.
fn check_listed(ps: &Vec<(u64, TileId)>, ids: &Vec<Option<u64>>, what: &str, list: &str) -> (r: Result<(), String>)
    ensures
        r is Ok <==> all_listed(ps@, ids@),
        r matches Err(e) ==> exists|j: int|
            0 <= j < ps@.len() && !id_listed(ids@, ps@[j].0) && e@ == unlisted_msg(what@, list@, ps@[j].0),
{
    let mut j: usize = 0;
    while j < ps.len()
        invariant
            j <= ps@.len(),
            forall|m: int| 0 <= m < j ==> id_listed(ids@, #[trigger] ps@[m].0),
        decreases ps@.len() - j,
    {
        let k = ps[j].0;
        if !ids_contain(ids, k) {
            let mut e = String::from_str("Schematic references ");
            e.append(what);
            e.append(" id ");
            let d = u64_decimal(k);
            e.append(d.as_str());
            e.append(" not present in [");
            e.append(list);
            e.append("] list");
            return Err(e);
        }
        j = j + 1;
    }
    Ok(())
}

/// Apply the schematic to the definitions' ids and asked positions (`merged_from`).
fn merge_positions(ids: &Vec<Option<u64>>, wants: &Vec<Option<TileId>>, ps: &Vec<(u64, TileId)>, what: &str) -> (r:
    Result<Vec<Option<TileId>>, String>)
    requires
        ids@.len() == wants@.len(),
    ensures
        match merged_from(ids@, wants@, ps@, what@, 0) {
            Ok(m) => r matches Ok(v) && v@ == m,
            Err(m) => r matches Err(e) && e@ == m,
        },
{
    let mut out: Vec<Option<TileId>> = Vec::new();
    let mut i: usize = 0;
    while i < ids.len()
        invariant
            i <= ids@.len(),
            ids@.len() == wants@.len(),
            merged_from(ids@, wants@, ps@, what@, 0) == match merged_from(ids@, wants@, ps@, what@, i as int) {
                Ok(rest) => Ok(out@ + rest),
                Err(e) => Err(e),
            },
        decreases ids@.len() - i,
    {
        let want = wants[i];
        let mut here = want;
        if let Some(k) = ids[i] {
            if let Some(t) = find_schematic_pos(ps, k) {
                if let Some(e) = want {
                    if e.x != t.x || e.y != t.y {
                        let mut m = String::from_str("Schematic position for ");
                        m.append(what);
                        m.append(" id=");
                        let d = u64_decimal(k);
                        m.append(d.as_str());
                        m.append(" conflicts with explicit pos: ");
                        let a = tile_text(t.x, t.y);
                        m.append(a.as_str());
                        m.append(" vs ");
                        let b = tile_text(e.x, e.y);
                        m.append(b.as_str());
                        return Err(m);
                    }
                }
                here = Some(t);
            }
        }
        proof {
            assert(merged_one(ids@[i as int], wants@[i as int], ps@, what@) == Ok::<Option<TileId>, Seq<char>>(here));
            match merged_from(ids@, wants@, ps@, what@, i + 1) {
                Ok(rest) => {
                    assert(out@.push(here) + rest =~= out@ + (seq![here] + rest));
                },
                Err(_) => {},
            }
        }
        out.push(here);
        i = i + 1;
    }
    proof {
        assert(out@ + Seq::<Option<TileId>>::empty() =~= out@);
    }
    Ok(out)
}


// ---- ids, names and errors ----

/// Registering `p` in an index holding `m` succeeds: a given id is new, and
/// one past the greatest id does not overflow.
pub open spec fn alloc_ok(m: Map<u64, Option<Entity>>, p: Option<u64>) -> bool {
    match p {
        Some(k) => !m.contains_key(k),
        None => !m.contains_key(u64::MAX),
    }
}

/// `s` starts with `p`.
pub open spec fn starts_with(s: Seq<char>, p: Seq<char>) -> bool {
    s.len() >= p.len() && s.take(p.len() as int) == p
}

/// The errors building a world can end with, besides those of the schematic:
/// an id given twice, an id past the greatest number, an unknown kind, a
/// random tile of an empty map, or running out of entity handles.
pub open spec fn load_error(e: Seq<char>) -> bool {
    ||| starts_with(e, "IdIndex already contains id: "@)
    ||| e == "attempt to add with overflow"@
    ||| starts_with(e, "Invalid ItemKind: "@)
    ||| starts_with(e, "Invalid FixtureKind: "@)
    ||| e == empty_range_msg()
    ||| e == "too many entities"@
}

proof fn lemma_starts_with(p: Seq<char>, rest: Seq<char>)
    ensures
        starts_with(p + rest, p),
{
    assert((p + rest).take(p.len() as int) =~= p);
}

/// Whether registering `provided` in `idx` would succeed (`alloc_ok`); the
/// error names the id as `{name}(k)`.
fn check_alloc<T: SimId>(idx: &IdIndex<T>, provided: Option<u64>, name: &str) -> (r: Result<(), String>)
    ensures
        r is Ok <==> alloc_ok(idx.view(), provided),
        r matches Err(e) ==> load_error(e@),
        r matches Err(e) ==> (provided matches Some(k) ==> e@ == "IdIndex already contains id: "@
            + wrapped_number(name@, k as nat)),
{
    match provided {
        Some(k) => {
            if idx.contains_raw(k) {
                let mut e = String::from_str("IdIndex already contains id: ");
                let t = crate::text::wrapped_number_text(name, k);
                e.append(t.as_str());
                proof {
                    lemma_starts_with("IdIndex already contains id: "@, t@);
                }
                return Err(e);
            }
            Ok(())
        },
        None => {
            if idx.contains_raw(u64::MAX) {
                return Err(String::from_str("attempt to add with overflow"));
            }
            Ok(())
        },
    }
}

fn too_many_entities() -> (r: String)
    ensures
        load_error(r@),
{
    String::from_str("too many entities")
}

/// The kind named by an item definition (`ItemKind::parse`), with its error
/// among the load errors.
fn item_kind_of(d: &ItemDef) -> (r: Result<ItemKind, String>)
    ensures
        match item_kind_named(kind_word(d.kind@)) {
            Some(k) => r == Ok::<ItemKind, String>(k),
            None => r matches Err(e) && load_error(e@),
        },
{
    match ItemKind::parse(d.kind.as_str()) {
        Ok(k) => Ok(k),
        Err(e) => {
            proof {
                lemma_starts_with("Invalid ItemKind: "@, kind_word(d.kind@));
            }
            Err(e)
        },
    }
}

// ---- when loading succeeds ----

/// The ids of item definitions, in order.
pub open spec fn item_def_ids(defs: Seq<ItemDef>) -> Seq<Option<u64>> {
    Seq::new(defs.len(), |i: int| defs[i].id)
}

/// Every item definition names a kind of item.
pub open spec fn kinds_ok(defs: Seq<ItemDef>) -> bool {
    forall|i: int| 0 <= i < defs.len() ==> (#[trigger] item_kind_named(kind_word(defs[i].kind@))) is Some
}

/// The id an index holding `keys` gives for `p`: the explicit one, or the next
/// one it allocates.
pub open spec fn given_id(keys: Set<u64>, p: Option<u64>) -> u64 {
    match p {
        Some(k) => k,
        None => next_free(keys),
    }
}

/// The ids an index holding `keys` gives for `ids`, one after the other.
#[verifier::opaque]
pub open spec fn ids_given(keys: Set<u64>, ids: Seq<Option<u64>>) -> Seq<u64>
    decreases ids.len(),
{
    if ids.len() == 0 {
        Seq::empty()
    } else {
        let g = given_id(keys, ids[0]);
        seq![g] + ids_given(keys.insert(g), ids.drop_first())
    }
}

/// An index holding `keys` can give `ids` one after the other: no explicit id
/// is already held, and no id is allocated while `u64::MAX` is held.
#[verifier::opaque]
pub open spec fn ids_fit(keys: Set<u64>, ids: Seq<Option<u64>>) -> bool
    decreases ids.len(),
{
    if ids.len() == 0 {
        true
    } else {
        let ok = match ids[0] {
            Some(k) => !keys.contains(k),
            None => !keys.contains(u64::MAX),
        };
        ok && ids_fit(keys.insert(given_id(keys, ids[0])), ids.drop_first())
    }
}

/// An index holding `m` can still give the ids `pending`.
pub open spec fn index_ready(m: Map<u64, Option<Entity>>, pending: Seq<Option<u64>>) -> bool {
    ids_fit(m.dom(), pending)
}

/// An index ready for `pending` can give the first pending id.
proof fn lemma_ready_first(m: Map<u64, Option<Entity>>, pending: Seq<Option<u64>>)
    requires
        pending.len() > 0,
        index_ready(m, pending),
    ensures
        alloc_ok(m, pending[0]),
{
    reveal(ids_fit);
}

/// Giving the first pending id `id` takes the index from `m0` to `m1`: it is
/// then ready for the rest, and the ids given to the rest follow `id`.
proof fn lemma_ready_after_alloc(
    m0: Map<u64, Option<Entity>>,
    m1: Map<u64, Option<Entity>>,
    pending: Seq<Option<u64>>,
    id: u64,
)
    requires
        pending.len() > 0,
        m1.dom() == m0.dom().insert(id),
        pending[0] matches Some(k) ==> id == k,
        pending[0] is None ==> id == next_alloc(m0),
    ensures
        id == given_id(m0.dom(), pending[0]),
        index_ready(m0, pending) ==> index_ready(m1, pending.drop_first()),
        ids_given(m0.dom(), pending) == seq![id] + ids_given(m1.dom(), pending.drop_first()),
{
    reveal(ids_fit);
    reveal(ids_given);
    lemma_next_alloc_dom(m0);
}

/// Indices with the same ids are ready for the same ids.
proof fn lemma_ready_keys(m1: Map<u64, Option<Entity>>, m2: Map<u64, Option<Entity>>, pending: Seq<Option<u64>>)
    requires
        index_ready(m1, pending),
        forall|k: u64| #[trigger] m2.contains_key(k) == m1.contains_key(k),
    ensures
        index_ready(m2, pending),
        m2.dom() == m1.dom(),
{
    assert(m2.dom() =~= m1.dom());
}

/// The ids given for `a + b` are those given for `a`, then those given for `b`
/// once the ones for `a` are held.
proof fn lemma_given_split(keys: Set<u64>, a: Seq<Option<u64>>, b: Seq<Option<u64>>)
    ensures
        ids_given(keys, a + b) == ids_given(keys, a) + ids_given(keys + ids_given(keys, a).to_set(), b),
    decreases a.len(),
{
    reveal(ids_given);
    if a.len() == 0 {
        assert(a + b =~= b);
        assert(ids_given(keys, a).to_set() =~= Set::<u64>::empty());
        assert(keys + Set::<u64>::empty() =~= keys);
    } else {
        let g = given_id(keys, a[0]);
        assert((a + b).drop_first() =~= a.drop_first() + b);
        assert((a + b)[0] == a[0]);
        lemma_given_split(keys.insert(g), a.drop_first(), b);
        let ga = ids_given(keys, a);
        let gr = ids_given(keys.insert(g), a.drop_first());
        assert(ga =~= seq![g] + gr);
        assert(keys + ga.to_set() =~= keys.insert(g) + gr.to_set()) by {
            assert forall|x: u64| ga.to_set().contains(x) <==> (x == g || gr.to_set().contains(x)) by {
                if ga.to_set().contains(x) {
                    let i = choose|i: int| 0 <= i < ga.len() && ga[i] == x;
                    if i > 0 {
                        assert(gr[i - 1] == x);
                    }
                }
                if gr.to_set().contains(x) {
                    let i = choose|i: int| 0 <= i < gr.len() && gr[i] == x;
                    assert(ga[i + 1] == x);
                }
                if x == g {
                    assert(ga[0] == x);
                }
            }
        }
        assert(seq![g] + gr + ids_given(keys + ga.to_set(), b) =~= seq![g] + (gr + ids_given(keys.insert(g) + gr.to_set(), b)));
    }
}

/// The ids of the items the pawn definitions `defs` carry, pawn after pawn.
pub open spec fn pawn_item_ids(defs: Seq<PawnDef>) -> Seq<Option<u64>>
    decreases defs.len(),
{
    if defs.len() == 0 {
        Seq::empty()
    } else {
        item_def_ids(defs[0].inventory@) + pawn_item_ids(defs.drop_first())
    }
}

/// Every item a pawn definition carries names a kind of item.
pub open spec fn pawn_kinds_ok(defs: Seq<PawnDef>) -> bool {
    forall|i: int| 0 <= i < defs.len() ==> #[trigger] kinds_ok(defs[i].inventory@)
}

/// The pawn definitions `defs` can be loaded into `w`, with the items `item_rest`
/// still to come after theirs.
pub open spec fn pawns_ready(w: SimWorld, defs: Seq<PawnDef>, size: MapSize, item_rest: Seq<Option<u64>>) -> bool {
    &&& index_ready(w.pawn_index.view(), pawn_def_ids(defs))
    &&& index_ready(w.item_index.view(), pawn_item_ids(defs) + item_rest)
    &&& pawn_kinds_ok(defs)
    &&& can_sample(size)
    &&& w.next_entity + defs.len() + pawn_item_ids(defs).len() < 0x1_0000_0000
}

proof fn lemma_pawns_ready_head(w: SimWorld, defs: Seq<PawnDef>, i: int, size: MapSize, item_rest: Seq<Option<u64>>)
    requires
        0 <= i < defs.len(),
        pawns_ready(w, defs.skip(i), size, item_rest),
    ensures
        pawn_ready(w, defs[i], size, pawn_def_ids(defs.skip(i + 1)), pawn_item_ids(defs.skip(i + 1)) + item_rest),
{
    let s = defs.skip(i);
    assert(s[0] == defs[i]);
    assert(s.drop_first() =~= defs.skip(i + 1));
    assert(pawn_def_ids(s) =~= seq![defs[i].id] + pawn_def_ids(defs.skip(i + 1)));
    assert(pawn_item_ids(s) + item_rest =~= item_def_ids(defs[i].inventory@) + (pawn_item_ids(defs.skip(i + 1))
        + item_rest));
    assert(kinds_ok(s[0].inventory@));
}

proof fn lemma_pawns_ready_tail(
    w0: SimWorld,
    w1: SimWorld,
    defs: Seq<PawnDef>,
    i: int,
    size: MapSize,
    item_rest: Seq<Option<u64>>,
)
    requires
        0 <= i < defs.len(),
        pawns_ready(w0, defs.skip(i), size, item_rest),
        index_ready(w1.pawn_index.view(), pawn_def_ids(defs.skip(i + 1))),
        index_ready(w1.item_index.view(), pawn_item_ids(defs.skip(i + 1)) + item_rest),
        w1.next_entity == w0.next_entity + defs[i].inventory@.len() + 1,
    ensures
        pawns_ready(w1, defs.skip(i + 1), size, item_rest),
        w1.next_entity + (defs.len() - (i + 1)) + pawn_item_ids(defs.skip(i + 1)).len() == w0.next_entity + (defs.len()
            - i) + pawn_item_ids(defs.skip(i)).len(),
{
    let s = defs.skip(i);
    assert(s[0] == defs[i]);
    assert(s.drop_first() =~= defs.skip(i + 1));
    assert(pawn_def_ids(s) =~= seq![defs[i].id] + pawn_def_ids(defs.skip(i + 1)));
    assert(pawn_item_ids(s) =~= item_def_ids(defs[i].inventory@) + pawn_item_ids(defs.skip(i + 1)));
    assert(pawn_def_ids(s).skip(1) + Seq::<Option<u64>>::empty() =~= pawn_def_ids(defs.skip(i + 1)));
    assert(pawn_item_ids(s).skip(item_def_ids(defs[i].inventory@).len() as int) =~= pawn_item_ids(defs.skip(i + 1)));
    assert forall|j: int| 0 <= j < defs.skip(i + 1).len() implies #[trigger] kinds_ok(defs.skip(i + 1)[j].inventory@) by {
        assert(defs.skip(i + 1)[j] == s[j + 1]);
        assert(kinds_ok(s[j + 1].inventory@));
    }
}

/// The ids of the items the fixture definitions `defs` hold, fixture after
/// fixture.
pub open spec fn fixture_item_ids(defs: Seq<FixtureDef>) -> Seq<Option<u64>>
    decreases defs.len(),
{
    if defs.len() == 0 {
        Seq::empty()
    } else {
        item_def_ids(defs[0].inventory@) + fixture_item_ids(defs.drop_first())
    }
}

/// A fixture definition names a kind of fixture, and its items kinds of item.
pub open spec fn fixture_kinds_ok(d: FixtureDef) -> bool {
    &&& fixture_kind_named(kind_word(d.kind@)) is Some
    &&& kinds_ok(d.inventory@)
}

/// A fixture definition can be loaded into `w`.
pub open spec fn fixture_ready(w: SimWorld, d: FixtureDef, size: MapSize, fixture_rest: Seq<Option<u64>>, item_rest: Seq<Option<u64>>) -> bool {
    &&& index_ready(w.fixture_index.view(), seq![d.id] + fixture_rest)
    &&& index_ready(w.item_index.view(), item_def_ids(d.inventory@) + item_rest)
    &&& fixture_kinds_ok(d)
    &&& can_sample(size)
    &&& w.next_entity + d.inventory@.len() + 1 < 0x1_0000_0000
}

/// The fixture definitions `defs` can be loaded into `w`, with the items
/// `item_rest` still to come after theirs.
pub open spec fn fixtures_ready(w: SimWorld, defs: Seq<FixtureDef>, size: MapSize, item_rest: Seq<Option<u64>>) -> bool {
    &&& index_ready(w.fixture_index.view(), fixture_def_ids(defs))
    &&& index_ready(w.item_index.view(), fixture_item_ids(defs) + item_rest)
    &&& forall|i: int| 0 <= i < defs.len() ==> #[trigger] fixture_kinds_ok(defs[i])
    &&& can_sample(size)
    &&& w.next_entity + defs.len() + fixture_item_ids(defs).len() < 0x1_0000_0000
}

proof fn lemma_fixtures_ready_head(w: SimWorld, defs: Seq<FixtureDef>, i: int, size: MapSize, item_rest: Seq<Option<u64>>)
    requires
        0 <= i < defs.len(),
        fixtures_ready(w, defs.skip(i), size, item_rest),
    ensures
        fixture_ready(w, defs[i], size, fixture_def_ids(defs.skip(i + 1)), fixture_item_ids(defs.skip(i + 1)) + item_rest),
{
    let s = defs.skip(i);
    assert(s[0] == defs[i]);
    assert(s.drop_first() =~= defs.skip(i + 1));
    assert(fixture_def_ids(s) =~= seq![defs[i].id] + fixture_def_ids(defs.skip(i + 1)));
    assert(fixture_item_ids(s) + item_rest =~= item_def_ids(defs[i].inventory@) + (fixture_item_ids(defs.skip(i + 1))
        + item_rest));
    assert(fixture_kinds_ok(s[0]));
}

proof fn lemma_fixtures_ready_tail(
    w0: SimWorld,
    w1: SimWorld,
    defs: Seq<FixtureDef>,
    i: int,
    size: MapSize,
    item_rest: Seq<Option<u64>>,
)
    requires
        0 <= i < defs.len(),
        fixtures_ready(w0, defs.skip(i), size, item_rest),
        index_ready(w1.fixture_index.view(), fixture_def_ids(defs.skip(i + 1))),
        index_ready(w1.item_index.view(), fixture_item_ids(defs.skip(i + 1)) + item_rest),
        w1.next_entity == w0.next_entity + defs[i].inventory@.len() + 1,
    ensures
        fixtures_ready(w1, defs.skip(i + 1), size, item_rest),
        w1.next_entity + (defs.len() - (i + 1)) + fixture_item_ids(defs.skip(i + 1)).len() == w0.next_entity + (defs.len()
            - i) + fixture_item_ids(defs.skip(i)).len(),
{
    let s = defs.skip(i);
    assert(s[0] == defs[i]);
    assert(s.drop_first() =~= defs.skip(i + 1));
    assert(fixture_def_ids(s) =~= seq![defs[i].id] + fixture_def_ids(defs.skip(i + 1)));
    assert(fixture_item_ids(s) =~= item_def_ids(defs[i].inventory@) + fixture_item_ids(defs.skip(i + 1)));
    assert(fixture_def_ids(s).skip(1) + Seq::<Option<u64>>::empty() =~= fixture_def_ids(defs.skip(i + 1)));
    assert(fixture_item_ids(s).skip(item_def_ids(defs[i].inventory@).len() as int) =~= fixture_item_ids(defs.skip(i + 1)));
    assert forall|j: int| 0 <= j < defs.skip(i + 1).len() implies #[trigger] fixture_kinds_ok(defs.skip(i + 1)[j]) by {
        assert(defs.skip(i + 1)[j] == s[j + 1]);
        assert(fixture_kinds_ok(s[j + 1]));
    }
}

/// A pawn definition can be loaded into `w`: its id and the ids of the items it
/// carries can be given, its items name kinds, random tiles can be drawn, and
/// the entities fit.
pub open spec fn pawn_ready(w: SimWorld, d: PawnDef, size: MapSize, pawn_rest: Seq<Option<u64>>, item_rest: Seq<Option<u64>>) -> bool {
    &&& index_ready(w.pawn_index.view(), seq![d.id] + pawn_rest)
    &&& index_ready(w.item_index.view(), item_def_ids(d.inventory@) + item_rest)
    &&& kinds_ok(d.inventory@)
    &&& can_sample(size)
    &&& w.next_entity + d.inventory@.len() + 1 < 0x1_0000_0000
}

// ---- inventories ----

/// `new` are the item records spawned for the item definitions `defs`, listed
/// in inventory `inv`, each with relation `rel`.
pub open spec fn items_spawned(
    new: Seq<ItemEntity>,
    inv: Seq<(ItemId, ItemKind)>,
    defs: Seq<ItemDef>,
    rel: ItemRelation,
) -> bool {
    &&& new.len() == defs.len()
    &&& inv.len() == defs.len()
    &&& forall|j: int|
        #![trigger new[j]]
        0 <= j < defs.len() ==> {
            &&& new[j].item == (Item { id: inv[j].0, kind: inv[j].1, qty: defs[j].qty })
            &&& new[j].relation == rel
            &&& new[j].name@ == "Item"@ + "#"@ + nat_decimal(inv[j].0.0 as nat)
            &&& (defs[j].id matches Some(k) ==> inv[j].0.0 == k)
            &&& item_kind_named(kind_word(defs[j].kind@)) == Some(inv[j].1)
        }
}

/// The ids of item records, in order.
pub open spec fn item_ids_of(s: Seq<ItemEntity>) -> Seq<u64> {
    Seq::new(s.len(), |i: int| s[i].item.id.0)
}

/// Spawn the items of `defs`, each with relation `rel`, and list them in a
/// new inventory.
#[verifier::rlimit(40)]
fn spawn_inventory(w: &mut SimWorld, defs: &Vec<ItemDef>, rel: ItemRelation, Ghost(rest): Ghost<Seq<Option<u64>>>) -> (r:
    Result<Inventory, String>)
    requires
        old(w).wf(),
        items_indexed(old(w).items@, old(w).item_index.view()),
    ensures
        final(w).wf(),
        items_indexed(final(w).items@, final(w).item_index.view()),
        index_ready(old(w).item_index.view(), item_def_ids(defs@) + rest) && kinds_ok(defs@) && old(w).next_entity + defs@.len() < 0x1_0000_0000 ==> r is Ok && index_ready(
            final(w).item_index.view(),
            rest,),
        r is Ok ==> final(w).next_entity == old(w).next_entity + defs@.len(),
        forall|k: u64| old(w).item_index.view().contains_key(k) ==> #[trigger] final(w).item_index.view().contains_key(k),
        final(w).next_entity >= old(w).next_entity,
        frame(old(w), final(w), (Touch { items: true, item_index: true, entities: true, ..touch_none() })),
        r matches Ok(inv) ==> final(w).items@.len() == old(w).items@.len() + defs@.len()
            && final(w).items@.subrange(0, old(w).items@.len() as int) == old(w).items@
            && items_spawned(final(w).items@.skip(old(w).items@.len() as int), inv@, defs@, rel),
        r is Ok ==> item_ids_of(final(w).items@.skip(old(w).items@.len() as int)) + ids_given(
            final(w).item_index.view().dom(),
            rest,
        ) == ids_given(old(w).item_index.view().dom(), item_def_ids(defs@) + rest),
        r matches Err(e) ==> load_error(e@),
{
    let mut inv = Inventory::new();
    let ghost w0 = *w;
    let ghost ready0 = index_ready(w0.item_index.view(), item_def_ids(defs@) + rest) && kinds_ok(defs@) && w0.next_entity + defs@.len() < 0x1_0000_0000;
    let mut j: usize = 0;
    assert(item_def_ids(defs@).skip(0) =~= item_def_ids(defs@));
    while j < defs.len()
        invariant
            j <= defs@.len(),
            w.wf(),
            items_indexed(w.items@, w.item_index.view()),
            w0.wf(),
            w0 == *old(w),
            forall|k: u64| w0.item_index.view().contains_key(k) ==> #[trigger] w.item_index.view().contains_key(k),
            w.next_entity >= w0.next_entity,
            frame(&w0, w, (Touch { items: true, item_index: true, entities: true, ..touch_none() })),
            w.items@.len() == w0.items@.len() + j,
            w.items@.subrange(0, w0.items@.len() as int) == w0.items@,
            items_spawned(w.items@.skip(w0.items@.len() as int), inv@, defs@.take(j as int), rel),
            w.next_entity == w0.next_entity + j,
            ready0 == (index_ready(w0.item_index.view(), item_def_ids(defs@) + rest) && kinds_ok(defs@) && w0.next_entity + defs@.len() < 0x1_0000_0000),
            ready0 ==> index_ready(w.item_index.view(), item_def_ids(defs@).skip(j as int) + rest),
            item_ids_of(w.items@.skip(w0.items@.len() as int)) + ids_given(
                w.item_index.view().dom(),
                item_def_ids(defs@).skip(j as int) + rest,
            ) == ids_given(w0.item_index.view().dom(), item_def_ids(defs@) + rest),
        decreases defs@.len() - j,
    {
        let d = &defs[j];
        let ghost pend = item_def_ids(defs@).skip(j as int) + rest;
        proof {
            if ready0 {
                assert(pend[0] == d.id);
                lemma_ready_first(w.item_index.view(), pend);
            }
        }
        match check_alloc(&w.item_index, d.id, "ItemId") {
            Ok(()) => {},
            Err(e) => return Err(e),
        }
        let kind = match item_kind_of(d) {
            Ok(k) => k,
            Err(e) => return Err(e),
        };
        if w.next_entity == u64::MAX {
            return Err(too_many_entities());
        }
        let provided = match d.id {
            Some(k) => Some(ItemId(k)),
            None => None,
        };
        let ghost before = *w;
        let id = w.spawn_item(provided, "Item", kind, d.qty, rel);
        inv.add((id, kind));
        proof {
            lemma_items_indexed_push(before.items@, before.item_index.view(), w.items@.last());
            assert(w.items@ =~= before.items@.push(w.items@.last()));
            let n0 = w0.items@.len() as int;
            let news = w.items@.skip(n0);
            let olds = before.items@.skip(n0);
            assert(pend[0] == d.id);
            assert(item_def_ids(defs@).skip(j + 1) + rest =~= pend.drop_first());
            assert(w.items@.drop_last() == before.items@);
            assert(news =~= olds.push(w.items@.last()));
            assert(ready0 ==> index_ready(w.item_index.view(), pend.drop_first())) by {
                assert(w.item_index.view().dom() =~= before.item_index.view().dom().insert(id.0));
                lemma_ready_after_alloc(before.item_index.view(), w.item_index.view(), pend, id.0);
            }
            assert(item_ids_of(news) + ids_given(w.item_index.view().dom(), pend.drop_first()) == ids_given(
                w0.item_index.view().dom(),
                item_def_ids(defs@) + rest,
            )) by {
                assert(w.item_index.view().dom() =~= before.item_index.view().dom().insert(id.0));
                lemma_ready_after_alloc(before.item_index.view(), w.item_index.view(), pend, id.0);
                assert(item_ids_of(news) =~= item_ids_of(olds).push(id.0));
                assert(item_ids_of(news) + ids_given(w.item_index.view().dom(), pend.drop_first()) =~= item_ids_of(olds)
                    + ids_given(before.item_index.view().dom(), pend));
            }
            assert(w.items@.subrange(0, n0) =~= before.items@.subrange(0, n0));
            assert(defs@.take(j + 1).drop_last() =~= defs@.take(j as int));
            assert forall|jj: int|
                #![trigger news[jj]]
                0 <= jj < j + 1 implies {
                &&& news[jj].item == (Item { id: inv@[jj].0, kind: inv@[jj].1, qty: defs@.take(j + 1)[jj].qty })
                &&& news[jj].relation == rel
                &&& news[jj].name@ == "Item"@ + "#"@ + nat_decimal(inv@[jj].0.0 as nat)
                &&& (defs@.take(j + 1)[jj].id matches Some(k) ==> inv@[jj].0.0 == k)
                &&& item_kind_named(kind_word(defs@.take(j + 1)[jj].kind@)) == Some(inv@[jj].1)
            } by {
                if jj < j {
                    assert(news[jj] == olds[jj]);
                }
            }
        }
        j = j + 1;
    }
    proof {
        assert(defs@.take(defs@.len() as int) =~= defs@);
        assert(item_def_ids(defs@).skip(defs@.len() as int) + rest =~= rest);
    }
    Ok(inv)
}


// ---- pawns ----

/// A meter of a definition, full (100) when missing.
pub open spec fn meter(v: Option<u32>) -> Q40p24 {
    let n: int = match v {
        Some(x) => x as int,
        None => 100,
    };
    Q40p24((n * scale()) as i64)
}

/// The name of the `i`-th pawn: its own, or "Pawn{i+1}".
pub open spec fn pawn_name(name: Option<String>, i: int) -> Seq<char> {
    match name {
        Some(n) => n@,
        None => "Pawn"@ + nat_decimal((i + 1) as nat),
    }
}

/// The positions of pawn records, in order.
pub open spec fn pawn_positions(s: Seq<PawnEntity>) -> Seq<TileId> {
    Seq::new(s.len(), |i: int| s[i].pos)
}

/// The pawn recorded at tile `t` by the tile index after `s` were placed in
/// order: the last of them on `t`.
pub open spec fn last_pawn_on(s: Seq<PawnEntity>, t: TileId) -> Option<PawnId>
    decreases s.len(),
{
    if s.len() == 0 {
        None
    } else if s.last().pos == t {
        Some(s.last().pawn.id)
    } else {
        last_pawn_on(s.drop_last(), t)
    }
}

/// `pe` is the record of the `i`-th pawn definition `d`, which asked for
/// `want`, after the pawns at `used`.
pub open spec fn pawn_loaded(pe: PawnEntity, d: PawnDef, i: int, want: Option<TileId>, used: Seq<TileId>, size: MapSize) -> bool {
    &&& (d.id matches Some(k) ==> pe.pawn.id.0 == k)
    &&& pe.name@ == pawn_name(d.name, i)
    &&& pe.pawn.sleep == meter(d.sleep)
    &&& pe.pawn.hunger == meter(d.hunger)
    &&& pe.job.kind == JobKind::Idle
    &&& pe.job.plan is None
    &&& pe.job.retries == 0
    &&& pe.priorities.0@ == d.priorities@
    &&& placed_at(want, used, size, pe.pos)
}

/// A copy of a list of task kinds.
fn copy_kinds(v: &Vec<TaskSpecKind>) -> (r: Vec<TaskSpecKind>)
    ensures
        r@ == v@,
{
    let mut r: Vec<TaskSpecKind> = Vec::new();
    let mut i: usize = 0;
    while i < v.len()
        invariant
            i <= v@.len(),
            r@ == v@.take(i as int),
        decreases v@.len() - i,
    {
        r.push(v[i]);
        proof {
            assert(v@.take(i + 1) =~= v@.take(i as int).push(v@[i as int]));
        }
        i = i + 1;
    }
    assert(v@.take(v@.len() as int) =~= v@);
    r
}

/// The name of the `i`-th pawn (`pawn_name`).
fn pawn_name_of(name: &Option<String>, i: usize) -> (r: String)
    requires
        i < usize::MAX,
    ensures
        r@ == pawn_name(*name, i as int),
{
    match name {
        Some(n) => n.clone(),
        None => {
            let mut s = String::from_str("Pawn");
            let d = u64_decimal((i + 1) as u64);
            s.append(d.as_str());
            s
        },
    }
}

/// Spawn the `i`-th pawn definition `d` asking for `want`: its id, its place
/// among the pawns at `used`, the items it carries, and its record.
#[verifier::loop_isolation(false)]
fn load_pawn(
    w: &mut SimWorld,
    d: &PawnDef,
    i: usize,
    want: Option<TileId>,
    used: &mut Vec<TileId>,
    rng: &mut SmallRng,
    size: MapSize,
    Ghost(pawn_rest): Ghost<Seq<Option<u64>>>,
    Ghost(item_rest): Ghost<Seq<Option<u64>>>,
) -> (r: Result<(), String>)
    requires
        old(w).wf(),
        indexed(old(w)),
        i < usize::MAX,
    ensures
        final(w).wf(),
        indexed(final(w)),
        forall|k: u64| old(w).item_index.view().contains_key(k) ==> #[trigger] final(w).item_index.view().contains_key(k),
        forall|k: u64| old(w).pawn_index.view().contains_key(k) ==> #[trigger] final(w).pawn_index.view().contains_key(k),
        pawn_ready(*old(w), *d, size, pawn_rest, item_rest) ==> r is Ok && index_ready(
            final(w).pawn_index.view(),
            pawn_rest,) && index_ready(final(w).item_index.view(), item_rest),
        r is Ok ==> final(w).next_entity == old(w).next_entity + d.inventory@.len() + 1,
        final(w).fixtures@ == old(w).fixtures@,
        final(w).fixture_index == old(w).fixture_index,
        final(w).fixture_tiles == old(w).fixture_tiles,
        final(w).item_tiles == old(w).item_tiles,
        final(w).grid == old(w).grid,
        final(w).task_board == old(w).task_board,
        final(w).scenario_seed == old(w).scenario_seed,
        r matches Err(e) ==> load_error(e@),
        r is Ok ==> {
            &&& final(w).pawns@.len() == old(w).pawns@.len() + 1
            &&& final(w).pawns@.drop_last() == old(w).pawns@
            &&& pawn_loaded(final(w).pawns@.last(), *d, i as int, want, old(used)@, size)
            &&& final(used)@ == old(used)@.push(final(w).pawns@.last().pos)
            &&& tiles_set(old(w).pawn_tiles, final(w).pawn_tiles, final(w).pawns@.last().pos, final(w).pawns@.last().pawn.id)
            &&& final(w).items@.len() == old(w).items@.len() + d.inventory@.len()
            &&& final(w).items@.subrange(0, old(w).items@.len() as int) == old(w).items@
            &&& items_spawned(
                final(w).items@.skip(old(w).items@.len() as int),
                final(w).pawns@.last().pawn.inventory@,
                d.inventory@,
                ItemRelation::CarriedBy(final(w).pawns@.last().pawn.id),
            )
            &&& final(w).pawns@.last().pawn.id.0 == given_id(old(w).pawn_index.view().dom(), d.id)
            &&& final(w).pawn_index.view().dom() == old(w).pawn_index.view().dom().insert(
                final(w).pawns@.last().pawn.id.0,
            )
            &&& item_ids_of(final(w).items@.skip(old(w).items@.len() as int)) + ids_given(
                final(w).item_index.view().dom(),
                item_rest,
            ) == ids_given(old(w).item_index.view().dom(), item_def_ids(d.inventory@) + item_rest)
        },
{
    proof {
        if pawn_ready(*w, *d, size, pawn_rest, item_rest) {
            lemma_ready_first(w.pawn_index.view(), seq![d.id] + pawn_rest);
        }
    }
    match check_alloc(&w.pawn_index, d.id, "PawnId") {
        Ok(()) => {},
        Err(e) => return Err(e),
    }
    let provided = match d.id {
        Some(k) => Some(PawnId(k)),
        None => None,
    };
    let ghost w0 = *w;
    let id = w.pawn_index.alloc_id(provided);
    proof {
        lemma_pawns_indexed_insert(w0.pawns@, w0.pawn_index.view(), id.0, None);
        if pawn_ready(w0, *d, size, pawn_rest, item_rest) {
            lemma_ready_after_alloc(w0.pawn_index.view(), w.pawn_index.view(), seq![d.id] + pawn_rest, id.0);
            assert((seq![d.id] + pawn_rest).drop_first() =~= pawn_rest);
        }
        assert forall|k: int| 0 <= k < w.pawns@.len() implies w.pawn_index.has(#[trigger] w.pawns@[k].pawn.id) by {
            assert(w0.pawn_index.has(w0.pawns@[k].pawn.id));
        }
        if has_pawn(w.pawns@, id) {
            let k = choose|k: int| 0 <= k < w.pawns@.len() && w.pawns@[k].pawn.id == id;
            assert(w0.pawn_index.has(w0.pawns@[k].pawn.id));
        }
    }
    let name = pawn_name_of(&d.name, i);
    let pos = match unique_pos(used, want, rng, size) {
        Ok(p) => p,
        Err(e) => return Err(e),
    };
    let ghost w1 = *w;
    let inventory = match spawn_inventory(w, &d.inventory, ItemRelation::CarriedBy(id), Ghost(item_rest)) {
        Ok(inv) => inv,
        Err(e) => return Err(e),
    };
    if w.next_entity == u64::MAX {
        return Err(too_many_entities());
    }
    let ghost w2 = *w;
    let sleep = Q40p24::from(match d.sleep {
        Some(v) => v,
        None => 100u32,
    });
    let hunger = Q40p24::from(match d.hunger {
        Some(v) => v,
        None => 100u32,
    });
    let priorities = WorkPriority(copy_kinds(&d.priorities));
    w.add_pawn(name, Pawn { id, inventory, sleep, hunger }, pos, priorities);
    proof {
        lemma_pawns_indexed_push(w2.pawns@, w2.pawn_index.view(), w.pawns@.last());
        assert(w.pawns@ =~= w2.pawns@.push(w.pawns@.last()));
        lemma_next_alloc_dom(w0.pawn_index.view());
        assert(w.pawn_index.view().dom() =~= w0.pawn_index.view().dom().insert(id.0));
        assert(w.items@ == w2.items@);
        assert(w.item_index == w2.item_index);
        if pawn_ready(w0, *d, size, pawn_rest, item_rest) {
            lemma_ready_keys(w1.pawn_index.view(), w.pawn_index.view(), pawn_rest);
            lemma_ready_keys(w2.item_index.view(), w.item_index.view(), item_rest);
        }
    }
    Ok(())
}


/// The number of items the pawn definitions `defs` carry.
pub open spec fn pawn_inv_total(defs: Seq<PawnDef>) -> nat
    decreases defs.len(),
{
    if defs.len() == 0 {
        0
    } else {
        pawn_inv_total(defs.drop_last()) + defs.last().inventory@.len()
    }
}

/// `pawns` are the records of the pawn definitions `defs`, which asked for
/// `wants`, and `items` are the items they carry, pawn after pawn.
pub open spec fn pawns_loaded(
    pawns: Seq<PawnEntity>,
    items: Seq<ItemEntity>,
    defs: Seq<PawnDef>,
    wants: Seq<Option<TileId>>,
    size: MapSize,
) -> bool {
    &&& pawns.len() == defs.len()
    &&& items.len() == pawn_inv_total(defs)
    &&& forall|k: int|
        #![trigger pawns[k]]
        0 <= k < defs.len() ==> {
            &&& pawn_loaded(pawns[k], defs[k], k, wants[k], pawn_positions(pawns.take(k)), size)
            &&& items_spawned(
                items.subrange(pawn_inv_total(defs.take(k)) as int, pawn_inv_total(defs.take(k + 1)) as int),
                pawns[k].pawn.inventory@,
                defs[k].inventory@,
                ItemRelation::CarriedBy(pawns[k].pawn.id),
            )
        }
}

pub(crate) proof fn lemma_inv_total_step(defs: Seq<PawnDef>, k: int)
    requires
        0 <= k < defs.len(),
    ensures
        pawn_inv_total(defs.take(k + 1)) == pawn_inv_total(defs.take(k)) + defs[k].inventory@.len(),
{
    assert(defs.take(k + 1).drop_last() =~= defs.take(k));
}

pub(crate) proof fn lemma_inv_total_mono(defs: Seq<PawnDef>, a: int, b: int)
    requires
        0 <= a <= b <= defs.len(),
    ensures
        pawn_inv_total(defs.take(a)) <= pawn_inv_total(defs.take(b)),
    decreases b - a,
{
    if a < b {
        lemma_inv_total_step(defs, b - 1);
        lemma_inv_total_mono(defs, a, b - 1);
    }
}

/// The ids of pawn records, in order.
pub open spec fn pawn_ids_of(s: Seq<PawnEntity>) -> Seq<u64> {
    Seq::new(s.len(), |i: int| s[i].pawn.id.0)
}

/// The ids given for `pending` start with `id`, the id given for its first entry.
proof fn lemma_given_first(keys: Set<u64>, pending: Seq<Option<u64>>, id: u64)
    requires
        pending.len() > 0,
        id == given_id(keys, pending[0]),
    ensures
        ids_given(keys, pending) == seq![id] + ids_given(keys.insert(id), pending.drop_first()),
{
    reveal(ids_given);
}

/// Loading pawn definition `i` keeps the record of the ids given so far.
proof fn lemma_pawn_ids_step(before: SimWorld, after: SimWorld, w0: SimWorld, defs: Seq<PawnDef>, i: int, item_rest: Seq<Option<u64>>)
    requires
        0 <= i < defs.len(),
        pawn_ids_of(before.pawns@) + ids_given(before.pawn_index.view().dom(), pawn_def_ids(defs.skip(i)))
            == ids_given(w0.pawn_index.view().dom(), pawn_def_ids(defs)),
        item_ids_of(before.items@) + ids_given(before.item_index.view().dom(), pawn_item_ids(defs.skip(i)) + item_rest)
            == ids_given(w0.item_index.view().dom(), pawn_item_ids(defs) + item_rest),
        after.pawns@.len() == before.pawns@.len() + 1,
        after.pawns@.drop_last() == before.pawns@,
        after.items@.len() >= before.items@.len(),
        after.items@.subrange(0, before.items@.len() as int) == before.items@,
        after.pawns@.last().pawn.id.0 == given_id(before.pawn_index.view().dom(), defs[i].id),
        after.pawn_index.view().dom() == before.pawn_index.view().dom().insert(after.pawns@.last().pawn.id.0),
        item_ids_of(after.items@.skip(before.items@.len() as int)) + ids_given(
            after.item_index.view().dom(),
            pawn_item_ids(defs.skip(i + 1)) + item_rest,
        ) == ids_given(before.item_index.view().dom(), item_def_ids(defs[i].inventory@) + (pawn_item_ids(defs.skip(i + 1)) + item_rest)),
    ensures
        pawn_ids_of(after.pawns@) + ids_given(after.pawn_index.view().dom(), pawn_def_ids(defs.skip(i + 1)))
            == ids_given(w0.pawn_index.view().dom(), pawn_def_ids(defs)),
        item_ids_of(after.items@) + ids_given(after.item_index.view().dom(), pawn_item_ids(defs.skip(i + 1)) + item_rest)
            == ids_given(w0.item_index.view().dom(), pawn_item_ids(defs) + item_rest),
{
    let id = after.pawns@.last().pawn.id.0;
    let pend = pawn_def_ids(defs.skip(i));
    assert(pend[0] == defs[i].id);
    assert(pend.drop_first() =~= pawn_def_ids(defs.skip(i + 1)));
    lemma_given_first(before.pawn_index.view().dom(), pend, id);
    assert(pawn_ids_of(after.pawns@) =~= pawn_ids_of(before.pawns@).push(id));
    assert(pawn_ids_of(after.pawns@) + ids_given(after.pawn_index.view().dom(), pawn_def_ids(defs.skip(i + 1)))
        =~= pawn_ids_of(before.pawns@) + ids_given(before.pawn_index.view().dom(), pend));
    let s = defs.skip(i);
    assert(s[0] == defs[i]);
    assert(s.drop_first() =~= defs.skip(i + 1));
    assert(pawn_item_ids(s) + item_rest =~= item_def_ids(defs[i].inventory@) + (pawn_item_ids(defs.skip(i + 1)) + item_rest));
    let n = before.items@.len() as int;
    assert(after.items@ =~= before.items@ + after.items@.skip(n));
    assert(item_ids_of(after.items@) =~= item_ids_of(before.items@) + item_ids_of(after.items@.skip(n)));
    assert(item_ids_of(after.items@) + ids_given(after.item_index.view().dom(), pawn_item_ids(defs.skip(i + 1)) + item_rest)
        =~= item_ids_of(before.items@) + (item_ids_of(after.items@.skip(n)) + ids_given(after.item_index.view().dom(), pawn_item_ids(defs.skip(i + 1)) + item_rest)));
}

/// Spawn the pawn definitions `defs`, the `k`-th asking for `wants[k]`, into a
/// world with no pawns and no items yet.
#[verifier::rlimit(40)]
fn spawn_pawns_from_def(
    w: &mut SimWorld,
    defs: &Vec<PawnDef>,
    wants: &Vec<Option<TileId>>,
    rng: &mut SmallRng,
    size: MapSize,
    Ghost(item_rest): Ghost<Seq<Option<u64>>>,
) -> (r: Result<(), String>)
    requires
        old(w).wf(),
        indexed(old(w)),
        old(w).pawns@.len() == 0,
        old(w).items@.len() == 0,
        wants@.len() == defs@.len(),
        forall|t: TileId| #[trigger] old(w).pawn_tiles.at(t) is None,
    ensures
        final(w).wf(),
        indexed(final(w)),
        pawns_ready(*old(w), defs@, size, item_rest) ==> r is Ok && index_ready(
            final(w).item_index.view(),
            item_rest,) && final(w).next_entity == old(w).next_entity + defs@.len() + pawn_item_ids(defs@).len(),
        final(w).fixtures@ == old(w).fixtures@,
        final(w).fixture_index == old(w).fixture_index,
        final(w).fixture_tiles == old(w).fixture_tiles,
        final(w).item_tiles == old(w).item_tiles,
        final(w).grid == old(w).grid,
        final(w).task_board == old(w).task_board,
        final(w).scenario_seed == old(w).scenario_seed,
        r matches Err(e) ==> load_error(e@),
        r is Ok ==> pawns_loaded(final(w).pawns@, final(w).items@, defs@, wants@, size),
        r is Ok ==> pawn_ids_of(final(w).pawns@) == ids_given(old(w).pawn_index.view().dom(), pawn_def_ids(defs@)),
        r is Ok ==> item_ids_of(final(w).items@) + ids_given(final(w).item_index.view().dom(), item_rest) == ids_given(
            old(w).item_index.view().dom(),
            pawn_item_ids(defs@) + item_rest,
        ),
        r is Ok ==> forall|t: TileId|
            #[trigger] final(w).pawn_tiles.at(t) == if old(w).pawn_tiles.cfg().contains(t) {
                last_pawn_on(final(w).pawns@, t)
            } else {
                old(w).pawn_tiles.at(t)
            },
{
    let mut used: Vec<TileId> = Vec::new();
    let ghost w0 = *w;
    let ghost ready0 = pawns_ready(w0, defs@, size, item_rest);
    let mut i: usize = 0;
    assert(w.pawns@.take(0) =~= w.pawns@);
    assert(defs@.skip(0) =~= defs@);
    assert(pawn_ids_of(w.pawns@) =~= Seq::<u64>::empty());
    assert(item_ids_of(w.items@) =~= Seq::<u64>::empty());
    assert(Seq::<u64>::empty() + ids_given(w.pawn_index.view().dom(), pawn_def_ids(defs@)) =~= ids_given(
        w.pawn_index.view().dom(),
        pawn_def_ids(defs@),
    ));
    assert(Seq::<u64>::empty() + ids_given(w.item_index.view().dom(), pawn_item_ids(defs@) + item_rest) =~= ids_given(
        w.item_index.view().dom(),
        pawn_item_ids(defs@) + item_rest,
    ));
    while i < defs.len()
        invariant
            i <= defs@.len(),
            wants@.len() == defs@.len(),
            w.wf(),
            indexed(w),
            w0 == *old(w),
            ready0 == pawns_ready(w0, defs@, size, item_rest),
            ready0 ==> pawns_ready(*w, defs@.skip(i as int), size, item_rest),
            ready0 ==> w.next_entity + (defs@.len() - i) + pawn_item_ids(defs@.skip(i as int)).len() == w0.next_entity
                + defs@.len() + pawn_item_ids(defs@).len(),
            w.fixtures@ == w0.fixtures@,
            w.fixture_index == w0.fixture_index,
            w.fixture_tiles == w0.fixture_tiles,
            w.item_tiles == w0.item_tiles,
            w.grid == w0.grid,
            w.task_board == w0.task_board,
            w.scenario_seed == w0.scenario_seed,
            w.pawn_tiles.cfg() == w0.pawn_tiles.cfg(),
            used@ == pawn_positions(w.pawns@),
            pawns_loaded(w.pawns@, w.items@, defs@.take(i as int), wants@.take(i as int), size),
            pawn_ids_of(w.pawns@) + ids_given(w.pawn_index.view().dom(), pawn_def_ids(defs@.skip(i as int))) == ids_given(
                w0.pawn_index.view().dom(),
                pawn_def_ids(defs@),
            ),
            item_ids_of(w.items@) + ids_given(w.item_index.view().dom(), pawn_item_ids(defs@.skip(i as int)) + item_rest)
                == ids_given(w0.item_index.view().dom(), pawn_item_ids(defs@) + item_rest),
            forall|t: TileId|
                #[trigger] w.pawn_tiles.at(t) == if w0.pawn_tiles.cfg().contains(t) {
                    last_pawn_on(w.pawns@, t)
                } else {
                    w0.pawn_tiles.at(t)
                },
        decreases defs@.len() - i,
    {
        let ghost before = *w;
        let ghost used0 = used@;
        proof {
            if ready0 {
                lemma_pawns_ready_head(*w, defs@, i as int, size, item_rest);
            }
        }
        match load_pawn(
            w,
            &defs[i],
            i,
            wants[i],
            &mut used,
            rng,
            size,
            Ghost(pawn_def_ids(defs@.skip(i + 1))),
            Ghost(pawn_item_ids(defs@.skip(i + 1)) + item_rest),
        ) {
            Ok(()) => {},
            Err(e) => return Err(e),
        }
        proof {
            if ready0 {
                lemma_pawns_ready_tail(before, *w, defs@, i as int, size, item_rest);
            }
            lemma_pawn_ids_step(before, *w, w0, defs@, i as int, item_rest);
            let ii = i as int;
            let d1 = defs@.take(ii + 1);
            let wt1 = wants@.take(ii + 1);
            let pe = w.pawns@.last();
            assert(d1.drop_last() =~= defs@.take(ii));
            assert(pawn_positions(w.pawns@) =~= pawn_positions(before.pawns@).push(pe.pos));
            assert(w.pawns@.take(ii) =~= before.pawns@);
            lemma_inv_total_step(d1, ii);
            assert(d1.take(ii) =~= defs@.take(ii));
            assert(d1.take(ii + 1) =~= d1);
            assert forall|k: int|
                #![trigger w.pawns@[k]]
                0 <= k < d1.len() implies {
                &&& pawn_loaded(w.pawns@[k], d1[k], k, wt1[k], pawn_positions(w.pawns@.take(k)), size)
                &&& items_spawned(
                    w.items@.subrange(pawn_inv_total(d1.take(k)) as int, pawn_inv_total(d1.take(k + 1)) as int),
                    w.pawns@[k].pawn.inventory@,
                    d1[k].inventory@,
                    ItemRelation::CarriedBy(w.pawns@[k].pawn.id),
                )
            } by {
                if k < ii {
                    assert(w.pawns@[k] == before.pawns@[k]);
                    assert(w.pawns@.take(k) =~= before.pawns@.take(k));
                    assert(d1.take(k) =~= defs@.take(ii).take(k));
                    assert(d1.take(k + 1) =~= defs@.take(ii).take(k + 1));
                    lemma_inv_total_mono(defs@.take(ii), k + 1, ii);
                    assert(defs@.take(ii).take(ii) =~= defs@.take(ii));
                    lemma_inv_total_mono(defs@.take(ii), k, k + 1);
                    assert(w.items@.subrange(pawn_inv_total(d1.take(k)) as int, pawn_inv_total(d1.take(k + 1)) as int)
                        =~= before.items@.subrange(pawn_inv_total(d1.take(k)) as int, pawn_inv_total(d1.take(k + 1)) as int));
                } else {
                    assert(w.items@.subrange(pawn_inv_total(d1.take(k)) as int, pawn_inv_total(d1.take(k + 1)) as int)
                        =~= w.items@.skip(before.items@.len() as int));
                }
            }
            assert forall|t: TileId|
                #[trigger] w.pawn_tiles.at(t) == if w0.pawn_tiles.cfg().contains(t) {
                    last_pawn_on(w.pawns@, t)
                } else {
                    w0.pawn_tiles.at(t)
                } by {
                assert(w.pawns@.drop_last() == before.pawns@);
            }
        }
        i = i + 1;
    }
    proof {
        assert(defs@.take(defs@.len() as int) =~= defs@);
        assert(wants@.take(wants@.len() as int) =~= wants@);
        assert(defs@.skip(defs@.len() as int) =~= Seq::<PawnDef>::empty());
        assert(pawn_def_ids(Seq::<PawnDef>::empty()) =~= Seq::<Option<u64>>::empty());
        assert(pawn_item_ids(Seq::<PawnDef>::empty()) =~= Seq::<Option<u64>>::empty());
        assert(Seq::<Option<u64>>::empty() + item_rest =~= item_rest);
        reveal(ids_given);
        assert(pawn_ids_of(w.pawns@) + Seq::<u64>::empty() =~= pawn_ids_of(w.pawns@));
    }
    Ok(())
}


// ---- fixtures ----

/// The harvest state of a new fixture of `kind`: the given countdown, else a
/// berry bush starts at 100.
pub open spec fn harvest_of(countdown: Option<u32>, kind: FixtureKind) -> Option<Harvestable> {
    match countdown {
        Some(c) => Some(Harvestable { countdown: c, seq_num: 0 }),
        None => if kind == FixtureKind::BerryBush {
            Some(Harvestable { countdown: 100, seq_num: 0 })
        } else {
            None
        },
    }
}

/// The positions of fixture records, in order.
pub open spec fn fixture_positions(s: Seq<FixtureEntity>) -> Seq<TileId> {
    Seq::new(s.len(), |i: int| s[i].pos)
}

/// The fixture recorded at tile `t` after `s` were placed in order.
pub open spec fn last_fixture_on(s: Seq<FixtureEntity>, t: TileId) -> Option<FixtureId>
    decreases s.len(),
{
    if s.len() == 0 {
        None
    } else if s.last().pos == t {
        Some(s.last().fixture.id)
    } else {
        last_fixture_on(s.drop_last(), t)
    }
}

/// `fe` is the record of fixture definition `d`, which asked for `want`, after
/// the fixtures at `used`.
pub open spec fn fixture_loaded(fe: FixtureEntity, d: FixtureDef, want: Option<TileId>, used: Seq<TileId>, size: MapSize) -> bool {
    &&& (d.id matches Some(k) ==> fe.fixture.id.0 == k)
    &&& fixture_kind_named(kind_word(d.kind@)) == Some(fe.fixture.kind)
    &&& fe.name@ == "Fixture"@ + "#"@ + nat_decimal(fe.fixture.id.0 as nat)
    &&& fe.harvestable == harvest_of(d.harvest_countdown, fe.fixture.kind)
    &&& fe.site is None
    &&& placed_at(want, used, size, fe.pos)
}

/// The kind named by a fixture definition, with its error among the load errors.
fn fixture_kind_of(d: &FixtureDef) -> (r: Result<FixtureKind, String>)
    ensures
        match fixture_kind_named(kind_word(d.kind@)) {
            Some(k) => r == Ok::<FixtureKind, String>(k),
            None => r matches Err(e) && load_error(e@),
        },
{
    match FixtureKind::parse(d.kind.as_str()) {
        Ok(k) => Ok(k),
        Err(e) => {
            proof {
                lemma_starts_with("Invalid FixtureKind: "@, kind_word(d.kind@));
            }
            Err(e)
        },
    }
}

/// Spawn fixture definition `d` asking for `want`: its id, its place among the
/// fixtures at `used`, the items it holds, and its record.
#[verifier::loop_isolation(false)]
fn load_fixture(
    w: &mut SimWorld,
    d: &FixtureDef,
    want: Option<TileId>,
    used: &mut Vec<TileId>,
    rng: &mut SmallRng,
    size: MapSize,
    Ghost(fixture_rest): Ghost<Seq<Option<u64>>>,
    Ghost(item_rest): Ghost<Seq<Option<u64>>>,
) -> (r: Result<(), String>)
    requires
        old(w).wf(),
        indexed(old(w)),
    ensures
        final(w).wf(),
        indexed(final(w)),
        forall|k: u64| old(w).item_index.view().contains_key(k) ==> #[trigger] final(w).item_index.view().contains_key(k),
        fixture_ready(*old(w), *d, size, fixture_rest, item_rest) ==> r is Ok && index_ready(
            final(w).fixture_index.view(),
            fixture_rest,) && index_ready(final(w).item_index.view(), item_rest),
        r is Ok ==> final(w).next_entity == old(w).next_entity + d.inventory@.len() + 1,
        final(w).pawns@ == old(w).pawns@,
        final(w).pawn_index == old(w).pawn_index,
        final(w).pawn_tiles == old(w).pawn_tiles,
        final(w).item_tiles == old(w).item_tiles,
        final(w).grid == old(w).grid,
        final(w).task_board == old(w).task_board,
        final(w).scenario_seed == old(w).scenario_seed,
        r matches Err(e) ==> load_error(e@),
        r is Ok ==> {
            &&& final(w).fixtures@.len() == old(w).fixtures@.len() + 1
            &&& final(w).fixtures@.drop_last() == old(w).fixtures@
            &&& fixture_loaded(final(w).fixtures@.last(), *d, want, old(used)@, size)
            &&& final(used)@ == old(used)@.push(final(w).fixtures@.last().pos)
            &&& tiles_set(
                old(w).fixture_tiles,
                final(w).fixture_tiles,
                final(w).fixtures@.last().pos,
                final(w).fixtures@.last().fixture.id,
            )
            &&& final(w).items@.len() == old(w).items@.len() + d.inventory@.len()
            &&& final(w).items@.subrange(0, old(w).items@.len() as int) == old(w).items@
            &&& items_spawned(
                final(w).items@.skip(old(w).items@.len() as int),
                final(w).fixtures@.last().fixture.inventory@,
                d.inventory@,
                ItemRelation::InFixture(final(w).fixtures@.last().fixture.id),
            )
            &&& final(w).fixtures@.last().fixture.id.0 == given_id(old(w).fixture_index.view().dom(), d.id)
            &&& final(w).fixture_index.view().dom() == old(w).fixture_index.view().dom().insert(
                final(w).fixtures@.last().fixture.id.0,
            )
            &&& item_ids_of(final(w).items@.skip(old(w).items@.len() as int)) + ids_given(
                final(w).item_index.view().dom(),
                item_rest,
            ) == ids_given(old(w).item_index.view().dom(), item_def_ids(d.inventory@) + item_rest)
        },
{
    proof {
        if fixture_ready(*w, *d, size, fixture_rest, item_rest) {
            lemma_ready_first(w.fixture_index.view(), seq![d.id] + fixture_rest);
        }
    }
    match check_alloc(&w.fixture_index, d.id, "FixtureId") {
        Ok(()) => {},
        Err(e) => return Err(e),
    }
    let provided = match d.id {
        Some(k) => Some(FixtureId(k)),
        None => None,
    };
    let ghost w0 = *w;
    let id = w.fixture_index.alloc_id(provided);
    proof {
        lemma_fixtures_indexed_insert(w0.fixtures@, w0.fixture_index.view(), id.0, None);
        if fixture_ready(w0, *d, size, fixture_rest, item_rest) {
            lemma_ready_after_alloc(
                w0.fixture_index.view(),
                w.fixture_index.view(),
                seq![d.id] + fixture_rest,
                id.0,);
            assert((seq![d.id] + fixture_rest).drop_first() =~= fixture_rest);
        }
        assert forall|k: int| 0 <= k < w.fixtures@.len() implies w.fixture_index.has(#[trigger] w.fixtures@[k].fixture.id) by {
            assert(w0.fixture_index.has(w0.fixtures@[k].fixture.id));
        }
        if has_fixture(w.fixtures@, id) {
            let k = choose|k: int| 0 <= k < w.fixtures@.len() && w.fixtures@[k].fixture.id == id;
            assert(w0.fixture_index.has(w0.fixtures@[k].fixture.id));
        }
    }
    let pos = match unique_pos(used, want, rng, size) {
        Ok(p) => p,
        Err(e) => return Err(e),
    };
    let ghost w1 = *w;
    let inventory = match spawn_inventory(w, &d.inventory, ItemRelation::InFixture(id), Ghost(item_rest)) {
        Ok(inv) => inv,
        Err(e) => return Err(e),
    };
    let ghost w2 = *w;
    let kind = match fixture_kind_of(d) {
        Ok(k) => k,
        Err(e) => return Err(e),
    };
    if w.next_entity == u64::MAX {
        return Err(too_many_entities());
    }
    let harvestable = match d.harvest_countdown {
        Some(c) => Some(Harvestable { countdown: c, seq_num: 0 }),
        None => match kind {
            FixtureKind::BerryBush => Some(Harvestable { countdown: 100, seq_num: 0 }),
            _ => None,
        },
    };
    let name = crate::world::name_with_id("Fixture", id.0);
    w.add_fixture(name, Fixture { id, kind, inventory }, pos, harvestable, None);
    proof {
        lemma_fixtures_indexed_push(w2.fixtures@, w2.fixture_index.view(), w.fixtures@.last());
        assert(w.fixtures@ =~= w2.fixtures@.push(w.fixtures@.last()));
        lemma_next_alloc_dom(w0.fixture_index.view());
        assert(w.fixture_index.view().dom() =~= w0.fixture_index.view().dom().insert(id.0));
        assert(w.items@ == w2.items@);
        assert(w.item_index == w2.item_index);
        if fixture_ready(w0, *d, size, fixture_rest, item_rest) {
            lemma_ready_keys(w1.fixture_index.view(), w.fixture_index.view(), fixture_rest);
            lemma_ready_keys(w2.item_index.view(), w.item_index.view(), item_rest);
        }
    }
    Ok(())
}


/// The number of items the fixture definitions `defs` hold.
pub open spec fn fixture_inv_total(defs: Seq<FixtureDef>) -> nat
    decreases defs.len(),
{
    if defs.len() == 0 {
        0
    } else {
        fixture_inv_total(defs.drop_last()) + defs.last().inventory@.len()
    }
}

/// `fixtures` are the records of the fixture definitions `defs`, which asked
/// for `wants`, and `items` are the items they hold, fixture after fixture.
pub open spec fn fixtures_loaded(
    fixtures: Seq<FixtureEntity>,
    items: Seq<ItemEntity>,
    defs: Seq<FixtureDef>,
    wants: Seq<Option<TileId>>,
    size: MapSize,
) -> bool {
    &&& fixtures.len() == defs.len()
    &&& items.len() == fixture_inv_total(defs)
    &&& forall|k: int|
        #![trigger fixtures[k]]
        0 <= k < defs.len() ==> {
            &&& fixture_loaded(fixtures[k], defs[k], wants[k], fixture_positions(fixtures.take(k)), size)
            &&& items_spawned(
                items.subrange(fixture_inv_total(defs.take(k)) as int, fixture_inv_total(defs.take(k + 1)) as int),
                fixtures[k].fixture.inventory@,
                defs[k].inventory@,
                ItemRelation::InFixture(fixtures[k].fixture.id),
            )
        }
}

pub(crate) proof fn lemma_fixture_total_step(defs: Seq<FixtureDef>, k: int)
    requires
        0 <= k < defs.len(),
    ensures
        fixture_inv_total(defs.take(k + 1)) == fixture_inv_total(defs.take(k)) + defs[k].inventory@.len(),
{
    assert(defs.take(k + 1).drop_last() =~= defs.take(k));
}

pub(crate) proof fn lemma_fixture_total_mono(defs: Seq<FixtureDef>, a: int, b: int)
    requires
        0 <= a <= b <= defs.len(),
    ensures
        fixture_inv_total(defs.take(a)) <= fixture_inv_total(defs.take(b)),
    decreases b - a,
{
    if a < b {
        lemma_fixture_total_step(defs, b - 1);
        lemma_fixture_total_mono(defs, a, b - 1);
    }
}

/// The ids of fixture records, in order.
pub open spec fn fixture_ids_of(s: Seq<FixtureEntity>) -> Seq<u64> {
    Seq::new(s.len(), |i: int| s[i].fixture.id.0)
}

/// Loading fixture definition `i` keeps the record of the ids given so far.
proof fn lemma_fixture_ids_step(
    before: SimWorld,
    after: SimWorld,
    w0: SimWorld,
    defs: Seq<FixtureDef>,
    i: int,
    item_rest: Seq<Option<u64>>,
    n0: int,
)
    requires
        0 <= i < defs.len(),
        0 <= n0 <= before.items@.len(),
        fixture_ids_of(before.fixtures@) + ids_given(before.fixture_index.view().dom(), fixture_def_ids(defs.skip(i)))
            == ids_given(w0.fixture_index.view().dom(), fixture_def_ids(defs)),
        item_ids_of(before.items@.skip(n0)) + ids_given(before.item_index.view().dom(), fixture_item_ids(defs.skip(i)) + item_rest)
            == ids_given(w0.item_index.view().dom(), fixture_item_ids(defs) + item_rest),
        after.fixtures@.len() == before.fixtures@.len() + 1,
        after.fixtures@.drop_last() == before.fixtures@,
        after.items@.len() >= before.items@.len(),
        after.items@.subrange(0, before.items@.len() as int) == before.items@,
        after.fixtures@.last().fixture.id.0 == given_id(before.fixture_index.view().dom(), defs[i].id),
        after.fixture_index.view().dom() == before.fixture_index.view().dom().insert(after.fixtures@.last().fixture.id.0),
        item_ids_of(after.items@.skip(before.items@.len() as int)) + ids_given(
            after.item_index.view().dom(),
            fixture_item_ids(defs.skip(i + 1)) + item_rest,
        ) == ids_given(before.item_index.view().dom(), item_def_ids(defs[i].inventory@) + (fixture_item_ids(defs.skip(i + 1)) + item_rest)),
    ensures
        fixture_ids_of(after.fixtures@) + ids_given(after.fixture_index.view().dom(), fixture_def_ids(defs.skip(i + 1)))
            == ids_given(w0.fixture_index.view().dom(), fixture_def_ids(defs)),
        item_ids_of(after.items@.skip(n0)) + ids_given(after.item_index.view().dom(), fixture_item_ids(defs.skip(i + 1)) + item_rest)
            == ids_given(w0.item_index.view().dom(), fixture_item_ids(defs) + item_rest),
{
    let id = after.fixtures@.last().fixture.id.0;
    let pend = fixture_def_ids(defs.skip(i));
    assert(pend[0] == defs[i].id);
    assert(pend.drop_first() =~= fixture_def_ids(defs.skip(i + 1)));
    lemma_given_first(before.fixture_index.view().dom(), pend, id);
    assert(fixture_ids_of(after.fixtures@) =~= fixture_ids_of(before.fixtures@).push(id));
    assert(fixture_ids_of(after.fixtures@) + ids_given(after.fixture_index.view().dom(), fixture_def_ids(defs.skip(i + 1)))
        =~= fixture_ids_of(before.fixtures@) + ids_given(before.fixture_index.view().dom(), pend));
    let s = defs.skip(i);
    assert(s[0] == defs[i]);
    assert(s.drop_first() =~= defs.skip(i + 1));
    assert(fixture_item_ids(s) + item_rest =~= item_def_ids(defs[i].inventory@) + (fixture_item_ids(defs.skip(i + 1)) + item_rest));
    let n = before.items@.len() as int;
    assert(after.items@.skip(n0) =~= before.items@.skip(n0) + after.items@.skip(n));
    assert(item_ids_of(after.items@.skip(n0)) =~= item_ids_of(before.items@.skip(n0)) + item_ids_of(after.items@.skip(n)));
    assert(item_ids_of(after.items@.skip(n0)) + ids_given(after.item_index.view().dom(), fixture_item_ids(defs.skip(i + 1)) + item_rest)
        =~= item_ids_of(before.items@.skip(n0)) + (item_ids_of(after.items@.skip(n)) + ids_given(after.item_index.view().dom(), fixture_item_ids(defs.skip(i + 1)) + item_rest)));
}

/// Spawn the fixture definitions `defs`, the `k`-th asking for `wants[k]`, into
/// a world with no fixtures yet; their items follow the items already there.
fn spawn_fixtures_from_def(
    w: &mut SimWorld,
    defs: &Vec<FixtureDef>,
    wants: &Vec<Option<TileId>>,
    rng: &mut SmallRng,
    size: MapSize,
    Ghost(item_rest): Ghost<Seq<Option<u64>>>,
) -> (r: Result<(), String>)
    requires
        old(w).wf(),
        indexed(old(w)),
        old(w).fixtures@.len() == 0,
        wants@.len() == defs@.len(),
        forall|t: TileId| #[trigger] old(w).fixture_tiles.at(t) is None,
    ensures
        final(w).wf(),
        indexed(final(w)),
        fixtures_ready(*old(w), defs@, size, item_rest) ==> r is Ok && index_ready(
            final(w).item_index.view(),
            item_rest,) && final(w).next_entity == old(w).next_entity + defs@.len() + fixture_item_ids(defs@).len(),
        final(w).pawns@ == old(w).pawns@,
        final(w).pawn_index == old(w).pawn_index,
        final(w).pawn_tiles == old(w).pawn_tiles,
        final(w).item_tiles == old(w).item_tiles,
        final(w).grid == old(w).grid,
        final(w).task_board == old(w).task_board,
        final(w).scenario_seed == old(w).scenario_seed,
        r matches Err(e) ==> load_error(e@),
        r is Ok ==> final(w).items@.len() >= old(w).items@.len(),
        r is Ok ==> final(w).items@.take(old(w).items@.len() as int) == old(w).items@,
        r is Ok ==> fixtures_loaded(
            final(w).fixtures@,
            final(w).items@.skip(old(w).items@.len() as int),
            defs@,
            wants@,
            size,
        ),
        r is Ok ==> fixture_ids_of(final(w).fixtures@) == ids_given(
            old(w).fixture_index.view().dom(),
            fixture_def_ids(defs@),
        ),
        r is Ok ==> item_ids_of(final(w).items@.skip(old(w).items@.len() as int)) + ids_given(
            final(w).item_index.view().dom(),
            item_rest,
        ) == ids_given(old(w).item_index.view().dom(), fixture_item_ids(defs@) + item_rest),
        r is Ok ==> forall|t: TileId|
            #[trigger] final(w).fixture_tiles.at(t) == if old(w).fixture_tiles.cfg().contains(t) {
                last_fixture_on(final(w).fixtures@, t)
            } else {
                old(w).fixture_tiles.at(t)
            },
{
    let mut used: Vec<TileId> = Vec::new();
    let ghost w0 = *w;
    let ghost ready0 = fixtures_ready(w0, defs@, size, item_rest);
    let ghost n0 = w.items@.len() as int;
    let mut i: usize = 0;
    assert(w.items@.take(n0) =~= w.items@);
    assert(defs@.skip(0) =~= defs@);
    assert(fixture_ids_of(w.fixtures@) =~= Seq::<u64>::empty());
    assert(item_ids_of(w.items@.skip(n0)) =~= Seq::<u64>::empty());
    assert(Seq::<u64>::empty() + ids_given(w.fixture_index.view().dom(), fixture_def_ids(defs@)) =~= ids_given(
        w.fixture_index.view().dom(),
        fixture_def_ids(defs@),
    ));
    assert(Seq::<u64>::empty() + ids_given(w.item_index.view().dom(), fixture_item_ids(defs@) + item_rest) =~= ids_given(
        w.item_index.view().dom(),
        fixture_item_ids(defs@) + item_rest,
    ));
    while i < defs.len()
        invariant
            i <= defs@.len(),
            wants@.len() == defs@.len(),
            w.wf(),
            indexed(w),
            w0 == *old(w),
            ready0 == fixtures_ready(w0, defs@, size, item_rest),
            ready0 ==> fixtures_ready(*w, defs@.skip(i as int), size, item_rest),
            ready0 ==> w.next_entity + (defs@.len() - i) + fixture_item_ids(defs@.skip(i as int)).len() == w0.next_entity
                + defs@.len() + fixture_item_ids(defs@).len(),
            n0 == w0.items@.len(),
            w.pawns@ == w0.pawns@,
            w.pawn_index == w0.pawn_index,
            w.pawn_tiles == w0.pawn_tiles,
            w.item_tiles == w0.item_tiles,
            w.grid == w0.grid,
            w.task_board == w0.task_board,
            w.scenario_seed == w0.scenario_seed,
            w.fixture_tiles.cfg() == w0.fixture_tiles.cfg(),
            w.items@.len() >= n0,
            w.items@.take(n0) == w0.items@,
            used@ == fixture_positions(w.fixtures@),
            fixtures_loaded(w.fixtures@, w.items@.skip(n0), defs@.take(i as int), wants@.take(i as int), size),
            fixture_ids_of(w.fixtures@) + ids_given(w.fixture_index.view().dom(), fixture_def_ids(defs@.skip(i as int)))
                == ids_given(w0.fixture_index.view().dom(), fixture_def_ids(defs@)),
            item_ids_of(w.items@.skip(n0)) + ids_given(w.item_index.view().dom(), fixture_item_ids(defs@.skip(i as int))
                + item_rest) == ids_given(w0.item_index.view().dom(), fixture_item_ids(defs@) + item_rest),
            forall|t: TileId|
                #[trigger] w.fixture_tiles.at(t) == if w0.fixture_tiles.cfg().contains(t) {
                    last_fixture_on(w.fixtures@, t)
                } else {
                    w0.fixture_tiles.at(t)
                },
        decreases defs@.len() - i,
    {
        let ghost before = *w;
        proof {
            if ready0 {
                lemma_fixtures_ready_head(*w, defs@, i as int, size, item_rest);
            }
        }
        match load_fixture(
            w,
            &defs[i],
            wants[i],
            &mut used,
            rng,
            size,
            Ghost(fixture_def_ids(defs@.skip(i + 1))),
            Ghost(fixture_item_ids(defs@.skip(i + 1)) + item_rest),
        ) {
            Ok(()) => {},
            Err(e) => return Err(e),
        }
        proof {
            if ready0 {
                lemma_fixtures_ready_tail(before, *w, defs@, i as int, size, item_rest);
            }
            lemma_fixture_ids_step(before, *w, w0, defs@, i as int, item_rest, n0);
            let ii = i as int;
            let d1 = defs@.take(ii + 1);
            let wt1 = wants@.take(ii + 1);
            let its = w.items@.skip(n0);
            let its0 = before.items@.skip(n0);
            assert(its.take(its0.len() as int) =~= its0) by {
                assert forall|q: int| 0 <= q < its0.len() implies its[q] == its0[q] by {
                    assert(w.items@.subrange(0, before.items@.len() as int)[n0 + q] == before.items@[n0 + q]);
                }
            }
            assert(w.items@.take(n0) =~= w0.items@) by {
                assert forall|q: int| 0 <= q < n0 implies w.items@[q] == w0.items@[q] by {
                    assert(w.items@.subrange(0, before.items@.len() as int)[q] == before.items@[q]);
                    assert(before.items@.take(n0)[q] == w0.items@[q]);
                }
            }
            assert(d1.drop_last() =~= defs@.take(ii));
            assert(fixture_positions(w.fixtures@) =~= fixture_positions(before.fixtures@).push(
                w.fixtures@.last().pos,
            ));
            assert(w.fixtures@.take(ii) =~= before.fixtures@);
            lemma_fixture_total_step(d1, ii);
            assert(d1.take(ii) =~= defs@.take(ii));
            assert(d1.take(ii + 1) =~= d1);
            assert forall|k: int|
                #![trigger w.fixtures@[k]]
                0 <= k < d1.len() implies {
                &&& fixture_loaded(w.fixtures@[k], d1[k], wt1[k], fixture_positions(w.fixtures@.take(k)), size)
                &&& items_spawned(
                    its.subrange(fixture_inv_total(d1.take(k)) as int, fixture_inv_total(d1.take(k + 1)) as int),
                    w.fixtures@[k].fixture.inventory@,
                    d1[k].inventory@,
                    ItemRelation::InFixture(w.fixtures@[k].fixture.id),
                )
            } by {
                if k < ii {
                    assert(w.fixtures@[k] == before.fixtures@[k]);
                    assert(w.fixtures@.take(k) =~= before.fixtures@.take(k));
                    assert(d1.take(k) =~= defs@.take(ii).take(k));
                    assert(d1.take(k + 1) =~= defs@.take(ii).take(k + 1));
                    lemma_fixture_total_mono(defs@.take(ii), k + 1, ii);
                    assert(defs@.take(ii).take(ii) =~= defs@.take(ii));
                    lemma_fixture_total_mono(defs@.take(ii), k, k + 1);
                    assert(its.subrange(fixture_inv_total(d1.take(k)) as int, fixture_inv_total(d1.take(k + 1)) as int)
                        =~= its0.subrange(fixture_inv_total(d1.take(k)) as int, fixture_inv_total(d1.take(k + 1)) as int));
                } else {
                    assert(its.subrange(fixture_inv_total(d1.take(k)) as int, fixture_inv_total(d1.take(k + 1)) as int)
                        =~= w.items@.skip(before.items@.len() as int));
                }
            }
            assert forall|t: TileId|
                #[trigger] w.fixture_tiles.at(t) == if w0.fixture_tiles.cfg().contains(t) {
                    last_fixture_on(w.fixtures@, t)
                } else {
                    w0.fixture_tiles.at(t)
                } by {
                assert(w.fixtures@.drop_last() == before.fixtures@);
            }
        }
        i = i + 1;
    }
    proof {
        assert(defs@.take(defs@.len() as int) =~= defs@);
        assert(wants@.take(wants@.len() as int) =~= wants@);
        assert(defs@.skip(defs@.len() as int) =~= Seq::<FixtureDef>::empty());
        assert(fixture_def_ids(Seq::<FixtureDef>::empty()) =~= Seq::<Option<u64>>::empty());
        assert(fixture_item_ids(Seq::<FixtureDef>::empty()) =~= Seq::<Option<u64>>::empty());
        assert(Seq::<Option<u64>>::empty() + item_rest =~= item_rest);
        reveal(ids_given);
        assert(fixture_ids_of(w.fixtures@) + Seq::<u64>::empty() =~= fixture_ids_of(w.fixtures@));
        if ready0 {
            assert(defs@.skip(defs@.len() as int) =~= Seq::<FixtureDef>::empty());
            assert(fixture_item_ids(Seq::<FixtureDef>::empty()) =~= Seq::<Option<u64>>::empty());
            assert(fixture_item_ids(defs@.skip(defs@.len() as int)) + item_rest =~= item_rest);
        }
    }
    Ok(())
}


// ---- items lying on the map ----

/// The items the tile descriptions `tiles` put on the map, each with its tile,
/// in order.
pub open spec fn tile_items(tiles: Seq<TileDef>) -> Seq<(ItemDef, TileId)>
    decreases tiles.len(),
{
    if tiles.len() == 0 {
        Seq::empty()
    } else {
        let rest = tile_items(tiles.drop_last());
        match tiles.last().item {
            Some(it) => rest.push((it, tiles.last().pos)),
            None => rest,
        }
    }
}

/// The tile an item lies on (the origin when it does not lie on the ground).
pub open spec fn ground_tile(rel: ItemRelation) -> TileId {
    match rel {
        ItemRelation::OnGround(p) => p,
        _ => TileId { x: 0, y: 0 },
    }
}

/// The tiles of item records, in order.
pub open spec fn ground_positions(s: Seq<ItemEntity>) -> Seq<TileId> {
    Seq::new(s.len(), |i: int| ground_tile(s[i].relation))
}

/// The item recorded at tile `t` after the items `s` were laid on the ground
/// in order.
pub open spec fn last_ground_on(s: Seq<ItemEntity>, t: TileId) -> Option<ItemId>
    decreases s.len(),
{
    if s.len() == 0 {
        None
    } else if s.last().relation == ItemRelation::OnGround(t) {
        Some(s.last().item.id)
    } else {
        last_ground_on(s.drop_last(), t)
    }
}

/// `ie` is the record of item definition `d` laid on tile `tile`, after the
/// items at `used`.
pub open spec fn ground_loaded(ie: ItemEntity, d: ItemDef, tile: TileId, used: Seq<TileId>, size: MapSize) -> bool {
    &&& (d.id matches Some(k) ==> ie.item.id.0 == k)
    &&& item_kind_named(kind_word(d.kind@)) == Some(ie.item.kind)
    &&& ie.item.qty == d.qty
    &&& ie.name@ == "Item"@ + "#"@ + nat_decimal(ie.item.id.0 as nat)
    &&& ie.relation is OnGround
    &&& placed_at(Some(tile), used, size, ground_tile(ie.relation))
}

/// `items` are the records of the map's items `defs`.
pub open spec fn ground_items_loaded(items: Seq<ItemEntity>, defs: Seq<(ItemDef, TileId)>, size: MapSize) -> bool {
    &&& items.len() == defs.len()
    &&& forall|k: int|
        #![trigger items[k]]
        0 <= k < defs.len() ==> ground_loaded(items[k], defs[k].0, defs[k].1, ground_positions(items.take(k)), size)
}

/// An item definition can be laid on the map of `w`: its id can be given, it
/// names a kind of item, random tiles can be drawn, and the entity fits.
pub open spec fn ground_ready(w: SimWorld, d: ItemDef, size: MapSize, rest: Seq<Option<u64>>) -> bool {
    &&& index_ready(w.item_index.view(), seq![d.id] + rest)
    &&& item_kind_named(kind_word(d.kind@)) is Some
    &&& can_sample(size)
    &&& w.next_entity + 1 < 0x1_0000_0000
}

/// Lay item definition `d` on tile `tile`, or near it when the tile is taken
/// by an item at `used`.
fn load_ground_item(
    w: &mut SimWorld,
    d: &ItemDef,
    tile: TileId,
    used: &mut Vec<TileId>,
    rng: &mut SmallRng,
    size: MapSize,
    Ghost(rest): Ghost<Seq<Option<u64>>>,
) -> (r: Result<(), String>)
    requires
        old(w).wf(),
        indexed(old(w)),
    ensures
        final(w).wf(),
        indexed(final(w)),
        ground_ready(*old(w), *d, size, rest) ==> r is Ok && index_ready(
            final(w).item_index.view(),
            rest,),
        r is Ok ==> final(w).next_entity == old(w).next_entity + 1,
        final(w).pawns@ == old(w).pawns@,
        final(w).fixtures@ == old(w).fixtures@,
        final(w).pawn_index == old(w).pawn_index,
        final(w).fixture_index == old(w).fixture_index,
        final(w).pawn_tiles == old(w).pawn_tiles,
        final(w).fixture_tiles == old(w).fixture_tiles,
        final(w).grid == old(w).grid,
        final(w).task_board == old(w).task_board,
        final(w).scenario_seed == old(w).scenario_seed,
        r matches Err(e) ==> load_error(e@),
        r is Ok ==> {
            &&& final(w).items@.len() == old(w).items@.len() + 1
            &&& final(w).items@.drop_last() == old(w).items@
            &&& ground_loaded(final(w).items@.last(), *d, tile, old(used)@, size)
            &&& final(used)@ == old(used)@.push(ground_tile(final(w).items@.last().relation))
            &&& tiles_set(
                old(w).item_tiles,
                final(w).item_tiles,
                ground_tile(final(w).items@.last().relation),
                final(w).items@.last().item.id,
            )
            &&& final(w).items@.last().item.id.0 == given_id(old(w).item_index.view().dom(), d.id)
            &&& final(w).item_index.view().dom() == old(w).item_index.view().dom().insert(
                final(w).items@.last().item.id.0,
            )
        },
{
    let ghost w0 = *w;
    proof {
        if ground_ready(w0, *d, size, rest) {
            lemma_ready_first(w0.item_index.view(), seq![d.id] + rest);
        }
    }
    match check_alloc(&w.item_index, d.id, "ItemId") {
        Ok(()) => {},
        Err(e) => return Err(e),
    }
    let kind = match item_kind_of(d) {
        Ok(k) => k,
        Err(e) => return Err(e),
    };
    let pos = match unique_pos(used, Some(tile), rng, size) {
        Ok(p) => p,
        Err(e) => return Err(e),
    };
    if w.next_entity == u64::MAX {
        return Err(too_many_entities());
    }
    let provided = match d.id {
        Some(k) => Some(ItemId(k)),
        None => None,
    };
    let ghost before = *w;
    let id = w.spawn_item(provided, "Item", kind, d.qty, ItemRelation::OnGround(pos));
    proof {
        lemma_items_indexed_push(before.items@, before.item_index.view(), w.items@.last());
        assert(w.items@ =~= before.items@.push(w.items@.last()));
        lemma_next_alloc_dom(before.item_index.view());
        assert(w.item_index.view().dom() =~= before.item_index.view().dom().insert(id.0));
        if ground_ready(w0, *d, size, rest) {
            lemma_ready_after_alloc(before.item_index.view(), w.item_index.view(), seq![d.id] + rest, id.0);
            assert((seq![d.id] + rest).drop_first() =~= rest);
        }
    }
    w.item_tiles.move_id(None, pos, id);
    Ok(())
}

/// The ids of the items the tile descriptions `tiles` put on the map, in order.
pub open spec fn tile_item_ids(tiles: Seq<TileDef>) -> Seq<Option<u64>> {
    Seq::new(tile_items(tiles).len(), |i: int| tile_items(tiles)[i].0.id)
}

/// The items the tile descriptions `tiles` put on the map can be laid into `w`.
pub open spec fn ground_items_ready(w: SimWorld, tiles: Seq<TileDef>, size: MapSize) -> bool {
    &&& index_ready(w.item_index.view(), tile_item_ids(tiles))
    &&& forall|k: int|
        0 <= k < tile_items(tiles).len() ==> (#[trigger] item_kind_named(kind_word(tile_items(tiles)[k].0.kind@))) is Some
    &&& can_sample(size)
    &&& w.next_entity + tile_items(tiles).len() < 0x1_0000_0000
}

/// The items of the first `i` tile descriptions come first among those of the
/// first `j`.
proof fn lemma_tile_items_prefix(tiles: Seq<TileDef>, i: int, j: int)
    requires
        0 <= i <= j <= tiles.len(),
    ensures
        tile_items(tiles.take(i)).len() <= tile_items(tiles.take(j)).len(),
        forall|k: int|
            0 <= k < tile_items(tiles.take(i)).len() ==> #[trigger] tile_items(tiles.take(j))[k] == tile_items(
                tiles.take(i),
            )[k],
    decreases j - i,
{
    if i < j {
        lemma_tile_items_prefix(tiles, i, j - 1);
        assert(tiles.take(j).drop_last() =~= tiles.take(j - 1));
    }
}

/// Lay the items of the tile descriptions `tiles` on the map, after the items
/// already in the world, whose tile index is still empty.
fn spawn_items_from_def(w: &mut SimWorld, tiles: &Vec<TileDef>, rng: &mut SmallRng, size: MapSize) -> (r: Result<
    (),
    String,
>)
    requires
        old(w).wf(),
        indexed(old(w)),
        forall|t: TileId| #[trigger] old(w).item_tiles.at(t) is None,
    ensures
        final(w).wf(),
        indexed(final(w)),
        ground_items_ready(*old(w), tiles@, size) ==> r is Ok,
        final(w).pawns@ == old(w).pawns@,
        final(w).fixtures@ == old(w).fixtures@,
        final(w).pawn_index == old(w).pawn_index,
        final(w).fixture_index == old(w).fixture_index,
        final(w).pawn_tiles == old(w).pawn_tiles,
        final(w).fixture_tiles == old(w).fixture_tiles,
        final(w).grid == old(w).grid,
        final(w).task_board == old(w).task_board,
        final(w).scenario_seed == old(w).scenario_seed,
        r matches Err(e) ==> load_error(e@),
        r is Ok ==> final(w).items@.len() >= old(w).items@.len(),
        r is Ok ==> final(w).items@.take(old(w).items@.len() as int) == old(w).items@,
        r is Ok ==> ground_items_loaded(final(w).items@.skip(old(w).items@.len() as int), tile_items(tiles@), size),
        r is Ok ==> item_ids_of(final(w).items@.skip(old(w).items@.len() as int)) == ids_given(
            old(w).item_index.view().dom(),
            tile_item_ids(tiles@),
        ),
        r is Ok ==> forall|t: TileId|
            #[trigger] final(w).item_tiles.at(t) == if old(w).item_tiles.cfg().contains(t) {
                last_ground_on(final(w).items@.skip(old(w).items@.len() as int), t)
            } else {
                old(w).item_tiles.at(t)
            },
{
    let mut used: Vec<TileId> = Vec::new();
    let ghost w0 = *w;
    let ghost n0 = w.items@.len() as int;
    let ghost ready0 = ground_items_ready(w0, tiles@, size);
    let ghost all_ids = tile_item_ids(tiles@);
    let mut i: usize = 0;
    assert(w.items@.take(n0) =~= w.items@);
    assert(w.items@.skip(n0) =~= Seq::<ItemEntity>::empty());
    assert(tiles@.take(0) =~= Seq::<TileDef>::empty());
    assert(all_ids.skip(0) =~= all_ids);
    assert(tiles@.take(tiles@.len() as int) =~= tiles@);
    assert(item_ids_of(w.items@.skip(n0)) =~= Seq::<u64>::empty());
    assert(Seq::<u64>::empty() + ids_given(w.item_index.view().dom(), all_ids) =~= ids_given(
        w.item_index.view().dom(),
        all_ids,
    ));
    while i < tiles.len()
        invariant
            i <= tiles@.len(),
            w.wf(),
            indexed(w),
            w0 == *old(w),
            ready0 == ground_items_ready(w0, tiles@, size),
            all_ids == tile_item_ids(tiles@),
            tiles@.take(tiles@.len() as int) == tiles@,
            ready0 ==> index_ready(
                w.item_index.view(),
                all_ids.skip(tile_items(tiles@.take(i as int)).len() as int),),
            ready0 ==> w.next_entity == w0.next_entity + tile_items(tiles@.take(i as int)).len(),
            n0 == w0.items@.len(),
            w.pawns@ == w0.pawns@,
            w.fixtures@ == w0.fixtures@,
            w.pawn_index == w0.pawn_index,
            w.fixture_index == w0.fixture_index,
            w.pawn_tiles == w0.pawn_tiles,
            w.fixture_tiles == w0.fixture_tiles,
            w.grid == w0.grid,
            w.task_board == w0.task_board,
            w.scenario_seed == w0.scenario_seed,
            w.item_tiles.cfg() == w0.item_tiles.cfg(),
            w.items@.len() >= n0,
            w.items@.take(n0) == w0.items@,
            used@ == ground_positions(w.items@.skip(n0)),
            ground_items_loaded(w.items@.skip(n0), tile_items(tiles@.take(i as int)), size),
            item_ids_of(w.items@.skip(n0)) + ids_given(
                w.item_index.view().dom(),
                all_ids.skip(tile_items(tiles@.take(i as int)).len() as int),
            ) == ids_given(w0.item_index.view().dom(), all_ids),
            forall|t: TileId|
                #[trigger] w.item_tiles.at(t) == if w0.item_tiles.cfg().contains(t) {
                    last_ground_on(w.items@.skip(n0), t)
                } else {
                    w0.item_tiles.at(t)
                },
        decreases tiles@.len() - i,
    {
        let ghost before = *w;
        let ghost ii = i as int;
        let ghost l = tile_items(tiles@.take(ii)).len() as int;
        proof {
            assert(tiles@.take(ii + 1).drop_last() =~= tiles@.take(ii));
            lemma_tile_items_prefix(tiles@, ii + 1, tiles@.len() as int);
            lemma_tile_items_prefix(tiles@, ii, ii + 1);
        }
        match &tiles[i].item {
            Some(it) => {
                proof {
                    if ready0 {
                        assert(tile_items(tiles@.take(ii + 1))[l] == (*it, tiles@[ii].pos));
                        assert(tile_items(tiles@)[l] == (*it, tiles@[ii].pos));
                        assert(all_ids[l] == it.id);
                        assert(seq![it.id] + all_ids.skip(l + 1) =~= all_ids.skip(l));
                        assert(all_ids.skip(l) + Seq::<Option<u64>>::empty() =~= all_ids.skip(l));
                        assert(item_kind_named(kind_word(tile_items(tiles@)[l].0.kind@)) is Some);
                    }
                }
                match load_ground_item(w, it, tiles[i].pos, &mut used, rng, size, Ghost(all_ids.skip(l + 1))) {
                    Ok(()) => {},
                    Err(e) => return Err(e),
                }
                proof {
                    let its = w.items@.skip(n0);
                    let its0 = before.items@.skip(n0);
                    let defs1 = tile_items(tiles@.take(ii + 1));
                    assert(its =~= its0.push(w.items@.last()));
                    assert(tile_items(tiles@.take(ii + 1))[l] == (*it, tiles@[ii].pos));
                    assert(tile_items(tiles@)[l] == (*it, tiles@[ii].pos));
                    assert(all_ids[l] == it.id);
                    let id = w.items@.last().item.id.0;
                    assert(all_ids.skip(l)[0] == it.id);
                    assert(all_ids.skip(l).drop_first() =~= all_ids.skip(l + 1));
                    lemma_given_first(before.item_index.view().dom(), all_ids.skip(l), id);
                    assert(item_ids_of(its) =~= item_ids_of(its0).push(id));
                    assert(item_ids_of(its) + ids_given(w.item_index.view().dom(), all_ids.skip(l + 1)) =~= item_ids_of(
                        its0,
                    ) + ids_given(before.item_index.view().dom(), all_ids.skip(l)));
                    assert(w.items@.take(n0) =~= before.items@.take(n0));
                    assert(its.take(its0.len() as int) =~= its0);
                    assert(ground_positions(its) =~= ground_positions(its0).push(ground_tile(w.items@.last().relation)));
                    assert forall|k: int|
                        #![trigger its[k]]
                        0 <= k < defs1.len() implies ground_loaded(
                        its[k],
                        defs1[k].0,
                        defs1[k].1,
                        ground_positions(its.take(k)),
                        size,
                    ) by {
                        if k < its0.len() {
                            assert(its[k] == its0[k]);
                            assert(its.take(k) =~= its0.take(k));
                        }
                    }
                    assert forall|t: TileId|
                        #[trigger] w.item_tiles.at(t) == if w0.item_tiles.cfg().contains(t) {
                            last_ground_on(its, t)
                        } else {
                            w0.item_tiles.at(t)
                        } by {
                        assert(its.drop_last() == its0);
                    }
                }
            },
            None => {},
        }
        i = i + 1;
    }
    proof {
        assert(tiles@.take(tiles@.len() as int) =~= tiles@);
        assert(all_ids.skip(all_ids.len() as int) =~= Seq::<Option<u64>>::empty());
        reveal(ids_given);
        assert(item_ids_of(w.items@.skip(n0)) + Seq::<u64>::empty() =~= item_ids_of(w.items@.skip(n0)));
    }
    Ok(())
}


// ---- the whole scenario ----

/// The positions the pawn and fixture definitions ask for once the schematic
/// is applied, `None` when the schematic is refused.
pub open spec fn resolved_positions(def: ScenarioDef) -> Option<(Seq<Option<TileId>>, Seq<Option<TileId>>)> {
    match def.map.schematic {
        None => Some((pawn_def_wants(def.pawns@), fixture_def_wants(def.fixtures@))),
        Some(s) => match schematic_m(s@, def.map.size) {
            Err(_) => None,
            Ok(pf) => if !all_listed(pf.0, pawn_def_ids(def.pawns@)) || !all_listed(pf.1, fixture_def_ids(def.fixtures@)) {
                None
            } else {
                match merged_from(pawn_def_ids(def.pawns@), pawn_def_wants(def.pawns@), pf.0, "Pawn"@, 0) {
                    Err(_) => None,
                    Ok(pw) => match merged_from(fixture_def_ids(def.fixtures@), fixture_def_wants(def.fixtures@), pf.1, "Fixture"@, 0) {
                        Err(_) => None,
                        Ok(fw) => Some((pw, fw)),
                    },
                }
            },
        },
    }
}

/// `e` is the error the schematic of `def` is refused with: the schematic's own
/// error, an id it places that no definition carries, or the first position
/// that disagrees with an explicit one (pawns first).
pub open spec fn schematic_error(def: ScenarioDef, e: Seq<char>) -> bool {
    match def.map.schematic {
        None => false,
        Some(s) => match schematic_m(s@, def.map.size) {
            Err(m) => e == m,
            Ok(pf) => {
                let pids = pawn_def_ids(def.pawns@);
                let fids = fixture_def_ids(def.fixtures@);
                if !all_listed(pf.0, pids) {
                    exists|j: int|
                        0 <= j < pf.0.len() && !id_listed(pids, pf.0[j].0) && e == unlisted_msg(
                            "Pawn"@,
                            "pawns"@,
                            pf.0[j].0,
                        )
                } else if !all_listed(pf.1, fids) {
                    exists|j: int|
                        0 <= j < pf.1.len() && !id_listed(fids, pf.1[j].0) && e == unlisted_msg(
                            "Fixture"@,
                            "fixtures"@,
                            pf.1[j].0,
                        )
                } else {
                    match merged_from(pids, pawn_def_wants(def.pawns@), pf.0, "Pawn"@, 0) {
                        Err(m) => e == m,
                        Ok(_) => match merged_from(fids, fixture_def_wants(def.fixtures@), pf.1, "Fixture"@, 0) {
                            Err(m) => e == m,
                            Ok(_) => false,
                        },
                    }
                }
            },
        },
    }
}

/// The ids and asked positions of pawn definitions.
fn pawn_ids_and_wants(defs: &Vec<PawnDef>) -> (r: (Vec<Option<u64>>, Vec<Option<TileId>>))
    ensures
        r.0@ == pawn_def_ids(defs@),
        r.1@ == pawn_def_wants(defs@),
{
    let mut ids: Vec<Option<u64>> = Vec::new();
    let mut wants: Vec<Option<TileId>> = Vec::new();
    let mut i: usize = 0;
    while i < defs.len()
        invariant
            i <= defs@.len(),
            ids@ == pawn_def_ids(defs@).take(i as int),
            wants@ == pawn_def_wants(defs@).take(i as int),
        decreases defs@.len() - i,
    {
        ids.push(defs[i].id);
        wants.push(defs[i].pos);
        proof {
            assert(pawn_def_ids(defs@).take(i + 1) =~= pawn_def_ids(defs@).take(i as int).push(defs@[i as int].id));
            assert(pawn_def_wants(defs@).take(i + 1) =~= pawn_def_wants(defs@).take(i as int).push(defs@[i as int].pos));
        }
        i = i + 1;
    }
    assert(pawn_def_ids(defs@).take(defs@.len() as int) =~= pawn_def_ids(defs@));
    assert(pawn_def_wants(defs@).take(defs@.len() as int) =~= pawn_def_wants(defs@));
    (ids, wants)
}

/// The ids and asked positions of fixture definitions.
fn fixture_ids_and_wants(defs: &Vec<FixtureDef>) -> (r: (Vec<Option<u64>>, Vec<Option<TileId>>))
    ensures
        r.0@ == fixture_def_ids(defs@),
        r.1@ == fixture_def_wants(defs@),
{
    let mut ids: Vec<Option<u64>> = Vec::new();
    let mut wants: Vec<Option<TileId>> = Vec::new();
    let mut i: usize = 0;
    while i < defs.len()
        invariant
            i <= defs@.len(),
            ids@ == fixture_def_ids(defs@).take(i as int),
            wants@ == fixture_def_wants(defs@).take(i as int),
        decreases defs@.len() - i,
    {
        ids.push(defs[i].id);
        wants.push(defs[i].pos);
        proof {
            assert(fixture_def_ids(defs@).take(i + 1) =~= fixture_def_ids(defs@).take(i as int).push(defs@[i as int].id));
            assert(fixture_def_wants(defs@).take(i + 1) =~= fixture_def_wants(defs@).take(i as int).push(
                defs@[i as int].pos,
            ));
        }
        i = i + 1;
    }
    assert(fixture_def_ids(defs@).take(defs@.len() as int) =~= fixture_def_ids(defs@));
    assert(fixture_def_wants(defs@).take(defs@.len() as int) =~= fixture_def_wants(defs@));
    (ids, wants)
}

/// The positions the pawn and fixture definitions of `def` ask for once its
/// schematic is applied (`resolved_positions`), or the schematic's error.
pub fn resolve_positions(def: &ScenarioDef) -> (r: Result<(Vec<Option<TileId>>, Vec<Option<TileId>>), String>)
    ensures
        match resolved_positions(*def) {
            Some(p) => r matches Ok(v) && v.0@ == p.0 && v.1@ == p.1,
            None => r matches Err(e) && schematic_error(*def, e@),
        },
{
    let (pids, pwants) = pawn_ids_and_wants(&def.pawns);
    let (fids, fwants) = fixture_ids_and_wants(&def.fixtures);
    match &def.map.schematic {
        None => Ok((pwants, fwants)),
        Some(s) => {
            let (ps, fs) = match parse_schematic(s.as_str(), def.map.size) {
                Ok(v) => v,
                Err(e) => return Err(e),
            };
            match check_listed(&ps, &pids, "Pawn", "pawns") {
                Ok(()) => {},
                Err(e) => return Err(e),
            }
            match check_listed(&fs, &fids, "Fixture", "fixtures") {
                Ok(()) => {},
                Err(e) => return Err(e),
            }
            let pw = match merge_positions(&pids, &pwants, &ps, "Pawn") {
                Ok(v) => v,
                Err(e) => return Err(e),
            };
            let fw = match merge_positions(&fids, &fwants, &fs, "Fixture") {
                Ok(v) => v,
                Err(e) => return Err(e),
            };
            Ok((pw, fw))
        },
    }
}


/// The seed of a scenario: its own, else `fallback`.
pub open spec fn seed_of(def: ScenarioDef, fallback: u64) -> u64 {
    match def.sim_seed {
        Some(s) => s,
        None => fallback,
    }
}

/// `w` is the world built from `def`, whose pawns and fixtures ask for the
/// positions `pw` and `fw`: the map, the seed, an empty task board, the pawns
/// with the items they carry, the fixtures with the items they hold, the
/// map's items on the ground, in that order, the tile indices recording
/// the last of each kind placed on a tile, and the ids: the explicit ones, and
/// for the others those that indices starting empty allocate in turn (from 1000
/// up, one past the greatest id so far).
pub open spec fn world_loaded(
    w: SimWorld,
    def: ScenarioDef,
    fallback: u64,
    pw: Seq<Option<TileId>>,
    fw: Seq<Option<TileId>>,
) -> bool {
    let size = def.map.size;
    let cfg = map_cfg(size);
    let np = pawn_inv_total(def.pawns@) as int;
    let nf = fixture_inv_total(def.fixtures@) as int;
    &&& w.wf()
    &&& indexed(&w)
    &&& w.scenario_seed == Some(seed_of(def, fallback))
    &&& w.grid.cfg == cfg
    &&& forall|t: TileId| cfg.contains(t) ==> #[trigger] w.grid.walkable.at(t) == crate::world::tile_walkable(def.map.tiles@, t)
    &&& w.task_board.tasks@.len() == 0
    &&& w.items@.len() == np + nf + tile_items(def.map.tiles@).len()
    &&& pawns_loaded(w.pawns@, w.items@.take(np), def.pawns@, pw, size)
    &&& fixtures_loaded(w.fixtures@, w.items@.subrange(np, np + nf), def.fixtures@, fw, size)
    &&& ground_items_loaded(w.items@.skip(np + nf), tile_items(def.map.tiles@), size)
    &&& forall|t: TileId| cfg.contains(t) ==> #[trigger] w.pawn_tiles.at(t) == last_pawn_on(w.pawns@, t)
    &&& forall|t: TileId| cfg.contains(t) ==> #[trigger] w.fixture_tiles.at(t) == last_fixture_on(w.fixtures@, t)
    &&& forall|t: TileId| cfg.contains(t) ==> #[trigger] w.item_tiles.at(t) == last_ground_on(w.items@.skip(np + nf), t)
    &&& pawn_ids_of(w.pawns@) == ids_given(Set::empty(), pawn_def_ids(def.pawns@))
    &&& fixture_ids_of(w.fixtures@) == ids_given(Set::empty(), fixture_def_ids(def.fixtures@))
    &&& item_ids_of(w.items@) == ids_given(
        Set::empty(),
        pawn_item_ids(def.pawns@) + fixture_item_ids(def.fixtures@) + tile_item_ids(def.map.tiles@),
    )
}

/// `def` loads: its schematic, if any, is accepted; random tiles can be drawn;
/// the ids of pawns, of fixtures and of items can each be given in turn by an
/// index that starts empty (no explicit id repeats an id given before it);
/// every kind named is known; and the entities fit in 32 bits.
pub open spec fn loadable(def: ScenarioDef) -> bool {
    let items = pawn_item_ids(def.pawns@) + fixture_item_ids(def.fixtures@) + tile_item_ids(def.map.tiles@);
    &&& resolved_positions(def) is Some
    &&& can_sample(def.map.size)
    &&& ids_fit(Set::empty(), pawn_def_ids(def.pawns@))
    &&& ids_fit(Set::empty(), fixture_def_ids(def.fixtures@))
    &&& ids_fit(Set::empty(), items)
    &&& pawn_kinds_ok(def.pawns@)
    &&& forall|i: int| 0 <= i < def.fixtures@.len() ==> #[trigger] fixture_kinds_ok(def.fixtures@[i])
    &&& forall|k: int|
        0 <= k < tile_items(def.map.tiles@).len() ==> (#[trigger] item_kind_named(
            kind_word(tile_items(def.map.tiles@)[k].0.kind@),
        )) is Some
    &&& def.pawns@.len() + def.fixtures@.len() + items.len() < 0x1_0000_0000
}

/// Build the world a scenario describes, seeding the generator that places
/// things without a position from the scenario's seed, else `fallback_seed`.
/// The schematic, when there is one, gives pawns and fixtures their tiles.
pub fn load_scenario_from_def(scenario_def: ScenarioDef, fallback_seed: u64) -> (r: Result<SimWorld, String>)
    requires
        scenario_def.map.size.x * scenario_def.map.size.y <= u32::MAX,
    ensures
        resolved_positions(scenario_def) is None ==> (r matches Err(e) && schematic_error(scenario_def, e@)),
        resolved_positions(scenario_def) is Some ==> (r matches Err(e) ==> load_error(e@)),
        loadable(scenario_def) ==> r is Ok,
        r matches Ok(w) ==> resolved_positions(scenario_def) matches Some(p) && world_loaded(
            w,
            scenario_def,
            fallback_seed,
            p.0,
            p.1,
        ),
{
    let def = scenario_def;
    let seed = match def.sim_seed {
        Some(s) => s,
        None => fallback_seed,
    };
    let mut rng = seeded_rng(seed);
    let (pw, fw) = match resolve_positions(&def) {
        Ok(v) => v,
        Err(e) => return Err(e),
    };
    let size = def.map.size;
    let grid = crate::world::WorldGrid::from_map(&def.map);
    let mut w = SimWorld::new(grid.cfg);
    w.grid = grid;
    w.scenario_seed = Some(seed);
    proof {
        match def.map.schematic {
            Some(sch) => match schematic_m(sch@, size) {
                Ok(pf) => {
                    lemma_merged_len(pawn_def_ids(def.pawns@), pawn_def_wants(def.pawns@), pf.0, "Pawn"@, 0);
                    lemma_merged_len(
                        fixture_def_ids(def.fixtures@),
                        fixture_def_wants(def.fixtures@),
                        pf.1,
                        "Fixture"@,
                        0,
                    );
                },
                Err(_) => {},
            },
            None => {},
        }
        assert(pw@.len() == def.pawns@.len());
        assert(fw@.len() == def.fixtures@.len());
    }
    let ghost w0 = w;
    let ghost pi = pawn_item_ids(def.pawns@);
    let ghost fi = fixture_item_ids(def.fixtures@);
    let ghost ti = tile_item_ids(def.map.tiles@);
    proof {
        if loadable(def) {
            assert(pi + fi + ti =~= pi + (fi + ti));
            assert(pi.skip(pi.len() as int) + (fi + ti) =~= fi + ti);
            assert(fi.skip(fi.len() as int) + ti =~= ti);
        }
    }
    match spawn_pawns_from_def(&mut w, &def.pawns, &pw, &mut rng, size, Ghost(fi + ti)) {
        Ok(()) => {},
        Err(e) => return Err(e),
    }
    let ghost w1 = w;
    match spawn_fixtures_from_def(&mut w, &def.fixtures, &fw, &mut rng, size, Ghost(ti)) {
        Ok(()) => {},
        Err(e) => return Err(e),
    }
    let ghost w2 = w;
    match spawn_items_from_def(&mut w, &def.map.tiles, &mut rng, size) {
        Ok(()) => {},
        Err(e) => return Err(e),
    }
    proof {
        let np = pawn_inv_total(def.pawns@) as int;
        let nf = fixture_inv_total(def.fixtures@) as int;
        assert(w1.items@.len() == np);
        assert(w2.items@.len() == np + nf) by {
            assert(w2.items@.take(np) == w1.items@);
        }
        assert(w.items@.take(np) =~= w1.items@) by {
            assert forall|q: int| 0 <= q < np implies w.items@[q] == w1.items@[q] by {
                assert(w.items@.take(np + nf)[q] == w2.items@[q]);
                assert(w2.items@.take(np)[q] == w1.items@[q]);
            }
        }
        assert(w.items@.subrange(np, np + nf) =~= w2.items@.skip(np)) by {
            assert forall|q: int| 0 <= q < nf implies w.items@.subrange(np, np + nf)[q] == w2.items@.skip(np)[q] by {
                assert(w.items@.take(np + nf)[np + q] == w2.items@[np + q]);
            }
        }
        assert(w0.pawn_index.view().dom() =~= Set::<u64>::empty());
        assert(w0.fixture_index.view().dom() =~= Set::<u64>::empty());
        assert(w0.item_index.view().dom() =~= Set::<u64>::empty());
        assert(w.pawns@ == w1.pawns@ && w2.pawns@ == w1.pawns@);
        assert(w.fixtures@ == w2.fixtures@);
        assert(w1.fixture_index == w0.fixture_index);
        assert(w1.item_index.view().dom() == w1.item_index.view().dom());
        assert(pi + fi + ti =~= pi + (fi + ti));
        let s1 = w.items@.take(np);
        let s2 = w.items@.subrange(np, np + nf);
        let s3 = w.items@.skip(np + nf);
        assert(w.items@ =~= s1 + s2 + s3);
        assert(item_ids_of(w.items@) =~= item_ids_of(s1) + item_ids_of(s2) + item_ids_of(s3));
        assert(item_ids_of(w.items@) =~= item_ids_of(w1.items@) + (item_ids_of(w2.items@.skip(np)) + ids_given(
            w2.item_index.view().dom(),
            ti,
        )));
    }
    Ok(w)
}

} // verus!
