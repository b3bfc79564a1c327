//! Scenario definitions, the text schematic of a map, and building a world from
//! a scenario.
use vstd::prelude::*;
use vstd::string::StrSliceExecFns;
use crate::grid::TileId;
use crate::tasks::TaskSpecKind;
use crate::text::{nat_decimal, string_of_chars, tile_debug, tile_text, u64_decimal};

verus! {

/// Map dimensions in tiles.
#[derive(Debug, Clone, Copy, PartialEq, Eq, Structural)]
pub struct MapSize {
    pub x: u32,
    pub y: u32,
}

impl Default for MapSize {
    fn default() -> (r: Self)
        ensures
            r.x == 64 && r.y == 64,
    {
        MapSize { x: 64, y: 64 }
    }
}

/// Ground types.
#[derive(Debug, Clone, Copy, PartialEq, Eq, Structural)]
pub enum Terrain {
    Grass,
}

impl Default for Terrain {
    fn default() -> (r: Self)
        ensures
            r == Terrain::Grass,
    {
        Terrain::Grass
    }
}

/// An item to spawn: optional fixed id, kind name, quantity, optional position.
#[derive(Debug, Clone)]
pub struct ItemDef {
    pub id: Option<u64>,
    pub kind: String,
    pub qty: u32,
    pub pos: Option<TileId>,
}

/// One described tile: whether it can be walked on, and an item lying on it.
#[derive(Debug, Clone)]
pub struct TileDef {
    pub pos: TileId,
    pub walkable: bool,
    pub terrain: Terrain,
    pub item: Option<ItemDef>,
}

/// The map: its size, described tiles, and an optional text schematic placing
/// pawns and fixtures.
#[derive(Debug, Clone)]
pub struct MapDef {
    pub size: MapSize,
    pub tiles: Vec<TileDef>,
    pub schematic: Option<String>,
}

impl Default for MapDef {
    fn default() -> (r: Self)
        ensures
            r.size.x == 64 && r.size.y == 64,
            r.tiles@.len() == 0,
            r.schematic is None,
    {
        MapDef { size: MapSize::default(), tiles: Vec::new(), schematic: None }
    }
}

/// A pawn to spawn. Missing meters start full (100).
#[derive(Debug, Clone)]
pub struct PawnDef {
    pub id: Option<u64>,
    pub name: Option<String>,
    pub pos: Option<TileId>,
    pub sleep: Option<u32>,
    pub hunger: Option<u32>,
    pub priorities: Vec<TaskSpecKind>,
    pub inventory: Vec<ItemDef>,
}

impl Default for PawnDef {
    fn default() -> (r: Self)
        ensures
            r.id is None && r.name is None && r.pos is None,
            r.sleep == Some(100u32) && r.hunger == Some(100u32),
            r.priorities@ == seq![TaskSpecKind::Harvest, TaskSpecKind::Plant],
            r.inventory@.len() == 0,
    {
        PawnDef {
            id: None,
            name: None,
            pos: None,
            sleep: Some(100),
            hunger: Some(100),
            priorities: vec![TaskSpecKind::Harvest, TaskSpecKind::Plant],
            inventory: Vec::new(),
        }
    }
}

/// A fixture to spawn, with the items it holds and its harvest countdown.
#[derive(Debug, Clone)]
pub struct FixtureDef {
    pub id: Option<u64>,
    pub kind: String,
    pub pos: Option<TileId>,
    pub inventory: Vec<ItemDef>,
    pub harvest_countdown: Option<u32>,
}

impl Default for FixtureDef {
    fn default() -> (r: Self)
        ensures
            r.id is None && r.pos is None && r.harvest_countdown is None,
            r.kind@ == Seq::<char>::empty(),
            r.inventory@.len() == 0,
    {
        FixtureDef { id: None, kind: String::new(), pos: None, inventory: Vec::new(), harvest_countdown: None }
    }
}

/// Work described by a scenario.
#[derive(Debug, Clone, Copy, PartialEq, Eq, Structural)]
pub enum TaskDef {
    Harvest(TileId),
}

/// A whole scenario: seed, map, pawns, fixtures and tasks.
#[derive(Debug, Clone)]
pub struct ScenarioDef {
    pub sim_seed: Option<u64>,
    pub map: MapDef,
    pub pawns: Vec<PawnDef>,
    pub fixtures: Vec<FixtureDef>,
    pub tasks: Vec<TaskDef>,
}

impl Default for ScenarioDef {
    fn default() -> (r: Self)
        ensures
            r.sim_seed is None,
            r.map.size.x == 64 && r.map.size.y == 64 && r.map.tiles@.len() == 0 && r.map.schematic is None,
            r.pawns@.len() == 0 && r.fixtures@.len() == 0 && r.tasks@.len() == 0,
    {
        ScenarioDef {
            sim_seed: None,
            map: MapDef::default(),
            pawns: Vec::new(),
            fixtures: Vec::new(),
            tasks: Vec::new(),
        }
    }
}

// ---- schematic text ----

/// Unicode white space, as `str::split_whitespace` and `str::trim` see it.
pub open spec fn is_ws(c: char) -> bool {
    let u = c as u32;
    ||| u == 0x20
    ||| 0x09 <= u <= 0x0d
    ||| u == 0x85
    ||| u == 0xa0
    ||| u == 0x1680
    ||| 0x2000 <= u <= 0x200a
    ||| u == 0x2028
    ||| u == 0x2029
    ||| u == 0x202f
    ||| u == 0x205f
    ||| u == 0x3000
}

fn char_is_ws(c: char) -> (r: bool)
    ensures
        r == is_ws(c),
{
    let u = c as u32;
    u == 0x20 || (0x09 <= u && u <= 0x0d) || u == 0x85 || u == 0xa0 || u == 0x1680 || (0x2000 <= u && u
        <= 0x200a) || u == 0x2028 || u == 0x2029 || u == 0x202f || u == 0x205f || u == 0x3000
}

/// The row so far with token `tok` ended (nothing when the token is empty).
pub open spec fn end_tok(row: Seq<Seq<char>>, tok: Seq<char>) -> Seq<Seq<char>> {
    if tok.len() > 0 {
        row.push(tok)
    } else {
        row
    }
}

/// The rows so far with row `row` ended (nothing when the row has no token).
pub open spec fn end_row(rows: Seq<Seq<Seq<char>>>, row: Seq<Seq<char>>) -> Seq<Seq<Seq<char>>> {
    if row.len() > 0 {
        rows.push(row)
    } else {
        rows
    }
}

/// The scan of the first `n` characters: finished rows, the current row's
/// tokens, the current token. A newline ends the row; other white space ends
/// the token.
pub open spec fn scan(cs: Seq<char>, n: int) -> (Seq<Seq<Seq<char>>>, Seq<Seq<char>>, Seq<char>)
    decreases n,
{
    if n <= 0 {
        (Seq::empty(), Seq::empty(), Seq::empty())
    } else {
        let st = scan(cs, n - 1);
        let c = cs[n - 1];
        if c == '\n' {
            (end_row(st.0, end_tok(st.1, st.2)), Seq::empty(), Seq::empty())
        } else if is_ws(c) {
            (st.0, end_tok(st.1, st.2), Seq::empty())
        } else {
            (st.0, st.1, st.2.push(c))
        }
    }
}

/// The rows of a schematic: its lines holding any token, each split at white
/// space into its tokens (as `lines`, `trim` and `split_whitespace` give them).
pub open spec fn schematic_rows(cs: Seq<char>) -> Seq<Seq<Seq<char>>> {
    let st = scan(cs, cs.len() as int);
    end_row(st.0, end_tok(st.1, st.2))
}

/// The characters of `s`.
fn chars_of(s: &str) -> (v: Vec<char>)
    ensures
        v@ == s@,
{
    let n = s.unicode_len();
    let mut v: Vec<char> = Vec::new();
    let mut i: usize = 0;
    while i < n
        invariant
            n == s@.len(),
            i <= n,
            v@ == s@.take(i as int),
        decreases n - i,
    {
        v.push(s.get_char(i));
        i = i + 1;
        assert(v@ =~= s@.take(i as int));
    }
    assert(s@.take(n as int) =~= s@);
    v
}

pub open spec fn row_view(row: Seq<Vec<char>>) -> Seq<Seq<char>> {
    row.map_values(|t: Vec<char>| t@)
}

pub open spec fn rows_view(rows: Seq<Vec<Vec<char>>>) -> Seq<Seq<Seq<char>>> {
    rows.map_values(|r: Vec<Vec<char>>| row_view(r@))
}

/// End the token `tok` into `row`.
fn close_tok(row: &mut Vec<Vec<char>>, tok: Vec<char>)
    ensures
        row_view(final(row)@) == end_tok(row_view(old(row)@), tok@),
{
    if tok.len() > 0 {
        let ghost before = row@;
        row.push(tok);
        assert(row_view(row@) =~= row_view(before).push(tok@));
    }
}

/// End the row `row` into `rows`.
fn close_row(rows: &mut Vec<Vec<Vec<char>>>, row: Vec<Vec<char>>)
    ensures
        rows_view(final(rows)@) == end_row(rows_view(old(rows)@), row_view(row@)),
{
    if row.len() > 0 {
        let ghost before = rows@;
        rows.push(row);
        assert(rows_view(rows@) =~= rows_view(before).push(row_view(row@)));
    }
}

/// The rows of a schematic (`schematic_rows`).
fn split_rows(cs: &Vec<char>) -> (rows: Vec<Vec<Vec<char>>>)
    ensures
        rows_view(rows@) == schematic_rows(cs@),
{
    let mut rows: Vec<Vec<Vec<char>>> = Vec::new();
    let mut row: Vec<Vec<char>> = Vec::new();
    let mut tok: Vec<char> = Vec::new();
    let mut i: usize = 0;
    proof {
        assert(rows_view(rows@) =~= Seq::<Seq<Seq<char>>>::empty());
        assert(row_view(row@) =~= Seq::<Seq<char>>::empty());
    }
    while i < cs.len()
        invariant
            i <= cs@.len(),
            (rows_view(rows@), row_view(row@), tok@) == scan(cs@, i as int),
        decreases cs@.len() - i,
    {
        let c = cs[i];
        if c == '\n' {
            let mut t: Vec<char> = Vec::new();
            std::mem::swap(&mut t, &mut tok);
            close_tok(&mut row, t);
            let mut r: Vec<Vec<char>> = Vec::new();
            std::mem::swap(&mut r, &mut row);
            close_row(&mut rows, r);
            proof {
                assert(row_view(row@) =~= Seq::<Seq<char>>::empty());
            }
        } else if char_is_ws(c) {
            let mut t: Vec<char> = Vec::new();
            std::mem::swap(&mut t, &mut tok);
            close_tok(&mut row, t);
        } else {
            tok.push(c);
        }
        i = i + 1;
    }
    let mut t: Vec<char> = Vec::new();
            std::mem::swap(&mut t, &mut tok);
    close_tok(&mut row, t);
    close_row(&mut rows, row);
    rows
}


// ---- reading the schematic ----

/// Whether every character is a decimal digit.
pub open spec fn all_digits(ds: Seq<char>) -> bool {
    forall|i: int| 0 <= i < ds.len() ==> '0' <= #[trigger] ds[i] <= '9'
}

/// The value of a string of decimal digits.
pub open spec fn digits_value(ds: Seq<char>) -> int
    decreases ds.len(),
{
    if ds.len() == 0 {
        0
    } else {
        digits_value(ds.drop_last()) * 10 + (ds.last() as int - '0' as int)
    }
}

/// The number `u64::from_str` reads: an optional '+', then at least one decimal
/// digit, the value fitting in 64 bits.
pub open spec fn parse_u64(s: Seq<char>) -> Option<u64> {
    let ds = if s.len() > 0 && s[0] == '+' {
        s.drop_first()
    } else {
        s
    };
    if ds.len() > 0 && all_digits(ds) && digits_value(ds) <= u64::MAX {
        Some(digits_value(ds) as u64)
    } else {
        None
    }
}

/// A longer digit string is worth at least as much as its prefix.
proof fn lemma_digits_grow(ds: Seq<char>, j: int)
    requires
        all_digits(ds),
        0 <= j <= ds.len(),
    ensures
        digits_value(ds.take(j)) <= digits_value(ds),
        0 <= digits_value(ds),
    decreases ds.len(),
{
    if ds.len() > 0 {
        let d = ds.drop_last();
        assert(all_digits(d)) by {
            assert forall|i: int| 0 <= i < d.len() implies '0' <= #[trigger] d[i] <= '9' by {
                assert(d[i] == ds[i]);
            }
        }
        if j == ds.len() {
            assert(ds.take(j) =~= ds);
            lemma_digits_grow(d, 0);
        } else {
            assert(ds.take(j) =~= d.take(j));
            lemma_digits_grow(d, j);
        }
        assert('0' <= ds[ds.len() - 1] <= '9');
    }
}

/// Read a number as `u64::from_str` does from the characters of `s` after the
/// first `from` (`parse_u64`).
#[verifier::loop_isolation(false)]
fn read_u64(s: &Vec<char>, from: usize) -> (r: Option<u64>)
    requires
        from <= s@.len(),
    ensures
        r == parse_u64(s@.skip(from as int)),
{
    let ghost t = s@.skip(from as int);
    let mut start: usize = from;
    if from < s.len() && s[from] == '+' {
        start = from + 1;
    }
    let ghost ds = if t.len() > 0 && t[0] == '+' {
        t.drop_first()
    } else {
        t
    };
    assert(ds =~= s@.skip(start as int));
    if start >= s.len() {
        assert(ds.len() == 0);
        return None;
    }
    let mut v: u64 = 0;
    let mut i: usize = start;
    while i < s.len()
        invariant
            start <= i <= s@.len(),
            ds =~= s@.skip(start as int),
            all_digits(ds.take(i - start)),
            v as int == digits_value(ds.take(i - start)),
        decreases s@.len() - i,
    {
        let c = s[i];
        let ghost k = i - start;
        assert(ds[k as int] == c);
        if !('0' <= c && c <= '9') {
            proof {
                assert(!all_digits(ds));
            }
            return None;
        }
        let d = (c as u32 - '0' as u32) as u64;
        assert(ds.take(k + 1).drop_last() =~= ds.take(k as int));
        assert(all_digits(ds.take(k + 1))) by {
            assert forall|j: int| 0 <= j < k + 1 implies '0' <= #[trigger] ds.take(k + 1)[j] <= '9' by {
                if j < k {
                    assert(ds.take(k + 1)[j] == ds.take(k as int)[j]);
                }
            }
        }
        if v > (u64::MAX - d) / 10 {
            proof {
                assert(digits_value(ds.take(k + 1)) > u64::MAX) by (nonlinear_arith)
                    requires
                        digits_value(ds.take(k + 1)) == v * 10 + d,
                        v > (u64::MAX - d) / 10,
                        0 <= d <= 9,
                ;
                if all_digits(ds) {
                    lemma_digits_grow(ds, k + 1);
                }
            }
            return None;
        }
        proof {
            assert(v * 10 + d <= u64::MAX) by (nonlinear_arith)
                requires
                    v <= (u64::MAX - d) / 10,
                    0 <= d <= 9,
            ;
        }
        v = v * 10 + d;
        i = i + 1;
    }
    assert(ds.take(ds.len() as int) =~= ds);
    Some(v)
}

/// Placed ids with their tiles, in the order they were read.
pub open spec fn placed_has(ps: Seq<(u64, TileId)>, id: u64) -> bool {
    exists|i: int| 0 <= i < ps.len() && ps[i].0 == id
}

/// Reading token `tok` at column `x` of row `y`: '.' is empty, 'P' and 'F'
/// followed by an id place a pawn or a fixture there.
pub open spec fn read_token(
    tok: Seq<char>,
    x: int,
    y: int,
    ps: Seq<(u64, TileId)>,
    fs: Seq<(u64, TileId)>,
) -> Result<(Seq<(u64, TileId)>, Seq<(u64, TileId)>), Seq<char>> {
    let tile = TileId { x: x as i32, y: y as i32 };
    if tok == seq!['.'] {
        Ok((ps, fs))
    } else if tok.len() > 0 && tok[0] == 'P' {
        match parse_u64(tok.drop_first()) {
            None => Err("Invalid pawn id in schematic"@),
            Some(id) => if placed_has(ps, id) {
                Err("Pawn id "@ + nat_decimal(id as nat) + " appears multiple times in schematic"@)
            } else {
                Ok((ps.push((id, tile)), fs))
            },
        }
    } else if tok.len() > 0 && tok[0] == 'F' {
        match parse_u64(tok.drop_first()) {
            None => Err("Invalid fixture id in schematic"@),
            Some(id) => if placed_has(fs, id) {
                Err("Fixture id "@ + nat_decimal(id as nat) + " appears multiple times in schematic"@)
            } else {
                Ok((ps, fs.push((id, tile))))
            },
        }
    } else {
        Err("Unknown token in schematic: '"@ + tok + "'"@)
    }
}

/// Reading the tokens of row `y` from column `x` on.
pub open spec fn read_row(
    row: Seq<Seq<char>>,
    y: int,
    x: int,
    ps: Seq<(u64, TileId)>,
    fs: Seq<(u64, TileId)>,
) -> Result<(Seq<(u64, TileId)>, Seq<(u64, TileId)>), Seq<char>>
    decreases row.len() - x,
{
    if x >= row.len() || x < 0 {
        Ok((ps, fs))
    } else {
        match read_token(row[x], x, y, ps, fs) {
            Ok(acc) => read_row(row, y, x + 1, acc.0, acc.1),
            Err(e) => Err(e),
        }
    }
}

/// Reading the rows from row `y` on, each of which must have `size.x` tokens.
pub open spec fn read_rows(
    rows: Seq<Seq<Seq<char>>>,
    size: MapSize,
    y: int,
    ps: Seq<(u64, TileId)>,
    fs: Seq<(u64, TileId)>,
) -> Result<(Seq<(u64, TileId)>, Seq<(u64, TileId)>), Seq<char>>
    decreases rows.len() - y,
{
    if y >= rows.len() || y < 0 {
        Ok((ps, fs))
    } else if rows[y].len() as u32 != size.x {
        Err(
            "schematic column count at row "@ + nat_decimal(y as nat) + " is "@ + nat_decimal(rows[y].len())
                + ", expected "@ + nat_decimal(size.x as nat),
        )
    } else {
        match read_row(rows[y], y, 0, ps, fs) {
            Ok(acc) => read_rows(rows, size, y + 1, acc.0, acc.1),
            Err(e) => Err(e),
        }
    }
}

/// The pawns and fixtures a schematic places, with their tiles: it must have
/// `size.y` rows of `size.x` tokens.
pub open spec fn schematic_m(cs: Seq<char>, size: MapSize) -> Result<(Seq<(u64, TileId)>, Seq<(u64, TileId)>), Seq<char>> {
    let rows = schematic_rows(cs);
    if rows.len() as u32 != size.y {
        Err(
            "schematic row count "@ + nat_decimal(rows.len()) + " differs from map.size.y "@ + nat_decimal(
                size.y as nat,
            ),
        )
    } else {
        read_rows(rows, size, 0, Seq::empty(), Seq::empty())
    }
}

/// Whether `ps` places id `id`.
fn placed_contains(ps: &Vec<(u64, TileId)>, id: u64) -> (r: bool)
    ensures
        r == placed_has(ps@, id),
{
    let mut i: usize = 0;
    while i < ps.len()
        invariant
            i <= ps@.len(),
            forall|j: int| 0 <= j < i ==> ps@[j].0 != id,
        decreases ps@.len() - i,
    {
        if ps[i].0 == id {
            return true;
        }
        i = i + 1;
    }
    false
}

/// Read one token (`read_token`).
fn read_one(tok: &Vec<char>, x: usize, y: usize, ps: &mut Vec<(u64, TileId)>, fs: &mut Vec<(u64, TileId)>) -> (r: Result<(), String>)
    ensures
        match read_token(tok@, x as int, y as int, old(ps)@, old(fs)@) {
            Ok(acc) => r is Ok && final(ps)@ == acc.0 && final(fs)@ == acc.1,
            Err(m) => r matches Err(e) && e@ == m,
        },
{
    let tile = TileId::new(x as i32, y as i32);
    if tok.len() == 1 && tok[0] == '.' {
        assert(tok@ =~= seq!['.']);
        return Ok(());
    }
    assert(tok@ != seq!['.']);
    if tok.len() > 0 && (tok[0] == 'P' || tok[0] == 'F') {
        let rest = read_u64(tok, 1);
        proof {
            assert(tok@.skip(1) =~= tok@.drop_first());
        }
        let is_pawn = tok[0] == 'P';
        let id = match rest {
            None => {
                if is_pawn {
                    return Err(String::from_str("Invalid pawn id in schematic"));
                } else {
                    return Err(String::from_str("Invalid fixture id in schematic"));
                }
            },
            Some(id) => id,
        };
        if is_pawn {
            if placed_contains(ps, id) {
                let mut e = String::from_str("Pawn id ");
                let n = u64_decimal(id);
                e.append(n.as_str());
                e.append(" appears multiple times in schematic");
                return Err(e);
            }
            ps.push((id, tile));
        } else {
            if placed_contains(fs, id) {
                let mut e = String::from_str("Fixture id ");
                let n = u64_decimal(id);
                e.append(n.as_str());
                e.append(" appears multiple times in schematic");
                return Err(e);
            }
            fs.push((id, tile));
        }
        return Ok(());
    }
    let mut e = String::from_str("Unknown token in schematic: '");
    let t = string_of_chars(tok.as_slice());
    e.append(t.as_str());
    e.append("'");
    Err(e)
}

/// The pawns and fixtures the schematic `s` places, in reading order
/// (`schematic_m`).
#[verifier::loop_isolation(false)]
pub fn parse_schematic(s: &str, size: MapSize) -> (r: Result<(Vec<(u64, TileId)>, Vec<(u64, TileId)>), String>)
    ensures
        match schematic_m(s@, size) {
            Ok(acc) => r matches Ok(v) && v.0@ == acc.0 && v.1@ == acc.1,
            Err(m) => r matches Err(e) && e@ == m,
        },
{
    let cs = chars_of(s);
    let rows = split_rows(&cs);
    let ghost rv = rows_view(rows@);
    if rows.len() as u32 != size.y {
        let mut e = String::from_str("schematic row count ");
        let a = u64_decimal(rows.len() as u64);
        e.append(a.as_str());
        e.append(" differs from map.size.y ");
        let b = u64_decimal(size.y as u64);
        e.append(b.as_str());
        return Err(e);
    }
    let mut ps: Vec<(u64, TileId)> = Vec::new();
    let mut fs: Vec<(u64, TileId)> = Vec::new();
    let mut y: usize = 0;
    while y < rows.len()
        invariant
            y <= rows@.len(),
            rv == rows_view(rows@),
            rv == schematic_rows(s@),
            rows@.len() as u32 == size.y,
            schematic_m(s@, size) == read_rows(rv, size, y as int, ps@, fs@),
        decreases rows@.len() - y,
    {
        let row = &rows[y];
        assert(rv[y as int] == row_view(row@));
        if row.len() as u32 != size.x {
            let mut e = String::from_str("schematic column count at row ");
            let a = u64_decimal(y as u64);
            e.append(a.as_str());
            e.append(" is ");
            let b = u64_decimal(row.len() as u64);
            e.append(b.as_str());
            e.append(", expected ");
            let c = u64_decimal(size.x as u64);
            e.append(c.as_str());
            return Err(e);
        }
        let ghost ps0 = ps@;
        let ghost fs0 = fs@;
        let mut x: usize = 0;
        while x < row.len()
            invariant
                x <= row@.len(),
                rv[y as int] == row_view(row@),
                read_row(rv[y as int], y as int, 0, ps0, fs0) == read_row(rv[y as int], y as int, x as int, ps@, fs@),
            decreases row@.len() - x,
        {
            assert(rv[y as int][x as int] == row@[x as int]@);
            match read_one(&row[x], x, y, &mut ps, &mut fs) {
                Ok(()) => {},
                Err(e) => {
                    return Err(e);
                },
            }
            x = x + 1;
        }
        y = y + 1;
    }
    Ok((ps, fs))
}

} // verus!
