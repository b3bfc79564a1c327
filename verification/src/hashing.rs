//! FNV-1a 64-bit hashing of serialized bytes.
use vstd::prelude::*;
use crate::text::{u64_hex16, hex_digits, hex_char};

verus! {

pub const FNV_OFFSET: u64 = 0xcbf29ce484222325;

pub const FNV_PRIME: u64 = 0x100000001b3;

/// FNV-1a of `bytes`: start from the offset basis, and for each byte xor it in
/// and multiply by the prime, wrapping at 64 bits.
pub open spec fn fnv1a_spec(bytes: Seq<u8>) -> u64
    decreases bytes.len(),
{
    if bytes.len() == 0 {
        FNV_OFFSET
    } else {
        vstd::wrapping::u64_specs::wrapping_mul(
            fnv1a_spec(bytes.drop_last()) ^ (bytes.last() as u64),
            FNV_PRIME,
        )
    }
}

/// FNV-1a 64-bit hash of the bytes.
pub fn fnv1a(bytes: &[u8]) -> (r: u64)
    ensures
        r == fnv1a_spec(bytes@),
{
    let mut hash = FNV_OFFSET;
    let mut i: usize = 0;
    while i < bytes.len()
        invariant
            i <= bytes@.len(),
            hash == fnv1a_spec(bytes@.take(i as int)),
        decreases bytes@.len() - i,
    {
        assert(bytes@.take(i as int + 1).drop_last() =~= bytes@.take(i as int));
        hash = hash ^ (bytes[i] as u64);
        hash = hash.wrapping_mul(FNV_PRIME);
        i = i + 1;
    }
    assert(bytes@.take(bytes@.len() as int) =~= bytes@);
    hash
}

/// FNV-1a 64-bit hash of the bytes as sixteen lowercase hexadecimal digits.
pub fn fnv1a64_hex(bytes: &[u8]) -> (r: String)
    ensures
        r@ == hex_digits(fnv1a_spec(bytes@) as nat, 16),
{
    u64_hex16(fnv1a(bytes))
}

/// `16` to the power `w`.
pub open spec fn pow16(w: nat) -> nat
    decreases w,
{
    if w == 0 {
        1
    } else {
        16 * pow16((w - 1) as nat)
    }
}

/// Whether `c` is a lowercase hexadecimal digit.
pub open spec fn is_hex_char(c: char) -> bool {
    ('0' <= c && c <= '9') || ('a' <= c && c <= 'f')
}

/// The value of a hexadecimal digit character.
pub open spec fn hex_digit_value(c: char) -> int {
    if '0' <= c && c <= '9' {
        (c as u32) as int - 48
    } else {
        (c as u32) as int - 87
    }
}

/// The number hexadecimal text `s` denotes, most significant digit first.
pub open spec fn hex_value(s: Seq<char>) -> int
    decreases s.len(),
{
    if s.len() == 0 {
        0
    } else {
        16 * hex_value(s.drop_last()) + hex_digit_value(s.last())
    }
}

proof fn lemma_hex_char(d: int)
    requires
        0 <= d < 16,
    ensures
        is_hex_char(hex_char(d)),
        hex_digit_value(hex_char(d)) == d,
{
}

proof fn lemma_hex_digits_value(n: nat, w: nat)
    ensures
        hex_digits(n, w).len() == w,
        hex_value(hex_digits(n, w)) == n % pow16(w),
        forall|i: int| 0 <= i < w ==> is_hex_char(#[trigger] hex_digits(n, w)[i]),
    decreases w,
{
    if w > 0 {
        let w1 = (w - 1) as nat;
        lemma_hex_digits_value(n / 16, w1);
        lemma_hex_char((n % 16) as int);
        let s = hex_digits(n, w);
        assert(s.drop_last() =~= hex_digits(n / 16, w1));
        assert(pow16(w1) > 0) by {
            lemma_pow16_pos(w1);
        }
        vstd::arithmetic::div_mod::lemma_mod_breakdown(n as int, 16, pow16(w1) as int);
        assert forall|i: int| 0 <= i < w implies is_hex_char(#[trigger] s[i]) by {
            if i < w1 {
                assert(s[i] == hex_digits(n / 16, w1)[i]);
            }
        }
    }
}

proof fn lemma_pow16_pos(w: nat)
    ensures
        pow16(w) > 0,
    decreases w,
{
    if w > 0 {
        lemma_pow16_pos((w - 1) as nat);
    }
}

/// The sixteen hexadecimal digits of a 64-bit number are lowercase digits and
/// read back as that number.
pub proof fn law_hex16_reads_back(n: u64)
    ensures
        hex_digits(n as nat, 16).len() == 16,
        forall|i: int| 0 <= i < 16 ==> is_hex_char(#[trigger] hex_digits(n as nat, 16)[i]),
        hex_value(hex_digits(n as nat, 16)) == n,
{
    lemma_hex_digits_value(n as nat, 16);
    assert(pow16(16) == 0x1_0000_0000_0000_0000) by {
        reveal_with_fuel(pow16, 17);
    }
}

} // verus!
