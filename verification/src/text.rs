//! Decimal and hexadecimal text of integers.
use vstd::prelude::*;
use vstd::string::StrSliceExecFns;

verus! {

/// The character of a decimal digit `d` (0..=9).
pub open spec fn digit_char(d: int) -> char {
    ((48 + d) as u32) as char
}

/// The character of a lowercase hexadecimal digit `d` (0..=15).
pub open spec fn hex_char(d: int) -> char {
    if d < 10 {
        ((48 + d) as u32) as char
    } else {
        ((87 + d) as u32) as char
    }
}

/// Decimal digits of `n`, most significant first, without leading zeros.
pub open spec fn nat_decimal(n: nat) -> Seq<char>
    decreases n,
{
    if n < 10 {
        seq![digit_char(n as int)]
    } else {
        nat_decimal(n / 10).push(digit_char((n % 10) as int))
    }
}

/// Decimal text of `n`, with a leading '-' when negative.
pub open spec fn int_decimal(n: int) -> Seq<char> {
    if n < 0 {
        seq!['-'] + nat_decimal((-n) as nat)
    } else {
        nat_decimal(n as nat)
    }
}

/// The `width` lowest hexadecimal digits of `n`, most significant first.
pub open spec fn hex_digits(n: nat, width: nat) -> Seq<char>
    decreases width,
{
    if width == 0 {
        Seq::empty()
    } else {
        hex_digits(n / 16, (width - 1) as nat).push(hex_char((n % 16) as int))
    }
}

/// `String::push`: appends the character.
#[verifier::external_body]
pub(crate) fn push_char(s: &mut String, c: char)
    ensures
        final(s)@ == old(s)@.push(c),
{
    s.push(c)
}

/// The string of the characters `cs`.
pub(crate) fn string_of_chars(cs: &[char]) -> (r: String)
    ensures
        r@ == cs@,
{
    let mut r = String::new();
    let mut i: usize = 0;
    while i < cs.len()
        invariant
            i <= cs@.len(),
            r@ == cs@.take(i as int),
        decreases cs@.len() - i,
    {
        push_char(&mut r, cs[i]);
        i = i + 1;
        assert(r@ =~= cs@.take(i as int));
    }
    assert(cs@.take(cs@.len() as int) =~= cs@);
    r
}

/// The character of the decimal digit `d`.
fn digit(d: u64) -> (c: char)
    requires
        d < 10,
    ensures
        c == digit_char(d as int),
{
    let b: u8 = 48 + d as u8;
    b as char
}

/// The character of the lowercase hexadecimal digit `d`.
fn hex_digit(d: u64) -> (c: char)
    requires
        d < 16,
    ensures
        c == hex_char(d as int),
{
    if d < 10 {
        let b: u8 = 48 + d as u8;
        b as char
    } else {
        let b: u8 = 87 + d as u8;
        b as char
    }
}

/// Appends the decimal digits of `n`.
fn push_decimal(n: u64, out: &mut Vec<char>)
    ensures
        final(out)@ == old(out)@ + nat_decimal(n as nat),
    decreases n,
{
    let ghost start = out@;
    if n >= 10 {
        push_decimal(n / 10, out);
    }
    let c = digit(n % 10);
    out.push(c);
    proof {
        if n >= 10 {
            assert(out@ =~= start + nat_decimal((n / 10) as nat).push(c));
        } else {
            assert(out@ =~= start + seq![c]);
        }
    }
}

/// Appends the `width` lowest hexadecimal digits of `n`.
fn push_hex(n: u64, width: u64, out: &mut Vec<char>)
    ensures
        final(out)@ == old(out)@ + hex_digits(n as nat, width as nat),
    decreases width,
{
    let ghost start = out@;
    if width == 0 {
        assert(out@ =~= start + Seq::<char>::empty());
    } else {
        push_hex(n / 16, width - 1, out);
        let c = hex_digit(n % 16);
        out.push(c);
        assert(out@ =~= start + hex_digits((n / 16) as nat, (width - 1) as nat).push(c));
    }
}

/// Decimal text of an integer, as `Display` writes it.
pub(crate) fn i64_decimal(n: i64) -> (r: String)
    ensures
        r@ == int_decimal(n as int),
{
    let mut cs: Vec<char> = Vec::new();
    if n < 0 {
        cs.push('-');
        let m: u64 = if n == i64::MIN {
            9_223_372_036_854_775_808u64
        } else {
            (0 - n) as u64
        };
        push_decimal(m, &mut cs);
        assert(cs@ =~= seq!['-'] + nat_decimal((-n) as nat));
    } else {
        push_decimal(n as u64, &mut cs);
        assert(cs@ =~= nat_decimal(n as nat));
    }
    string_of_chars(cs.as_slice())
}

/// Decimal text of an unsigned integer, as `Display` writes it.
pub(crate) fn u64_decimal(n: u64) -> (r: String)
    ensures
        r@ == nat_decimal(n as nat),
{
    let mut cs: Vec<char> = Vec::new();
    push_decimal(n, &mut cs);
    assert(cs@ =~= nat_decimal(n as nat));
    string_of_chars(cs.as_slice())
}

/// Whether two strings hold the same characters.
pub(crate) fn str_eq(a: &str, b: &str) -> (r: bool)
    ensures
        r == (a@ == b@),
{
    let n = a.unicode_len();
    if n != b.unicode_len() {
        return false;
    }
    let mut i: usize = 0;
    while i < n
        invariant
            n == a@.len(),
            n == b@.len(),
            i <= n,
            forall|j: int| 0 <= j < i ==> a@[j] == b@[j],
        decreases n - i,
    {
        if a.get_char(i) != b.get_char(i) {
            return false;
        }
        i = i + 1;
    }
    assert(a@ =~= b@);
    true
}

/// The part of `s` before its first ':', or all of `s`.
pub(crate) fn before_colon(s: &str) -> (r: &str)
    ensures
        r@ == crate::components::kind_word(s@),
{
    let n = s.unicode_len();
    let mut i: usize = 0;
    while i < n
        invariant
            n == s@.len(),
            i <= n,
            forall|j: int| 0 <= j < i ==> s@[j] != ':',
        decreases n - i,
    {
        if s.get_char(i) == ':' {
            proof {
                let k = choose|k: int| 0 <= k < s@.len() && s@[k] == ':' && forall|j: int| 0 <= j < k ==> s@[j] != ':';
                assert(k == i as int) by {
                    if k < i {
                        assert(s@[k] != ':');
                    }
                    if k > i {
                        assert(s@[i as int] != ':');
                    }
                }
            }
            return s.substring_char(0, i);
        }
        i = i + 1;
    }
    let r = s.substring_char(0, n);
    assert(r@ =~= s@);
    r
}

/// Sixteen lowercase hexadecimal digits of `n`, zero-padded, as `{:016x}` writes them.
pub(crate) fn u64_hex16(n: u64) -> (r: String)
    ensures
        r@ == hex_digits(n as nat, 16),
{
    let mut cs: Vec<char> = Vec::new();
    push_hex(n, 16, &mut cs);
    assert(cs@ =~= hex_digits(n as nat, 16));
    string_of_chars(cs.as_slice())
}

/// `name(n)`, the text of a one-field tuple struct over a number.
pub open spec fn wrapped_number(name: Seq<char>, n: nat) -> Seq<char> {
    name + seq!['('] + nat_decimal(n) + seq![')']
}

/// `name(n)`, as `Debug` writes a one-field tuple struct over a `u64`.
pub fn wrapped_number_text(name: &str, n: u64) -> (r: String)
    ensures
        r@ == wrapped_number(name@, n as nat),
{
    let mut s = String::from_str(name);
    s.append("(");
    let d = u64_decimal(n);
    s.append(d.as_str());
    s.append(")");
    proof {
        reveal_strlit("(");
        reveal_strlit(")");
    }
    assert(s@ =~= wrapped_number(name@, n as nat));
    s
}

/// "TileId { x: X, y: Y }", as `Debug` writes a tile.
pub open spec fn tile_debug(x: int, y: int) -> Seq<char> {
    "TileId { x: "@ + int_decimal(x) + ", y: "@ + int_decimal(y) + " }"@
}

/// The `Debug` text of a tile.
pub fn tile_text(x: i32, y: i32) -> (r: String)
    ensures
        r@ == tile_debug(x as int, y as int),
{
    let mut s = String::from_str("TileId { x: ");
    let dx = i64_decimal(x as i64);
    s.append(dx.as_str());
    s.append(", y: ");
    let dy = i64_decimal(y as i64);
    s.append(dy.as_str());
    s.append(" }");
    s
}

/// Length of the decimal text of a natural number.
pub proof fn lemma_nat_decimal_len(n: nat)
    ensures
        nat_decimal(n).len() >= 1,
        n < 10 ==> nat_decimal(n).len() == 1,
        n < 100 ==> nat_decimal(n).len() <= 2,
        n < 1000 ==> nat_decimal(n).len() <= 3,
        n < 10000 ==> nat_decimal(n).len() <= 4,
        n < 100000 ==> nat_decimal(n).len() <= 5,
        n < 1000000 ==> nat_decimal(n).len() <= 6,
    decreases n,
{
    if n >= 10 {
        lemma_nat_decimal_len(n / 10);
    }
}

} // verus!
