//! Q40.24 fixed-point number with a signed 64-bit backing.
//! - 24 fractional bits, 40 integer bits (including sign)
//! - Range about [-2^39, 2^39)
//! - Deterministic; equality and order are those of the raw bits.
use vstd::prelude::*;
use vstd::std_specs::convert::{FromSpecImpl, TryFromSpecImpl};
use crate::text::{i64_decimal, int_decimal, nat_decimal, lemma_nat_decimal_len};
use vstd::std_specs::ops::{
    AddSpecImpl, SubSpecImpl, NegSpecImpl, MulSpecImpl, DivSpecImpl, RemSpecImpl,
};
use core::ops::{Add, Sub, Neg, Mul, Div, Rem, AddAssign, SubAssign, MulAssign, DivAssign, RemAssign};

verus! {

/// 2^24, the value of one unit.
pub open spec fn scale() -> int {
    16777216
}

/// 2^23, half a unit.
pub open spec fn half() -> int {
    8388608
}

/// Absolute value of an integer.
pub open spec fn abs_int(n: int) -> int {
    if n < 0 {
        -n
    } else {
        n
    }
}

/// `n / d` rounded to the nearest integer, ties away from zero (`d != 0`).
pub open spec fn div_round(n: int, d: int) -> int {
    let m = (2 * abs_int(n) + abs_int(d)) / (2 * abs_int(d));
    if (n >= 0 && d >= 0) || (n < 0 && d < 0) {
        m
    } else {
        -m
    }
}

/// `n / d` truncated toward zero (`d != 0`).
pub open spec fn div_trunc(n: int, d: int) -> int {
    let m = abs_int(n) / abs_int(d);
    if (n >= 0) == (d >= 0) {
        m
    } else {
        -m
    }
}

/// Remainder of the division truncated toward zero (`d != 0`).
pub open spec fn rem_trunc(n: int, d: int) -> int {
    n - d * div_trunc(n, d)
}

/// Q40.24 = i64 scaled by 2^24
#[derive(Copy, Clone, Debug, Default, PartialEq, Eq, Structural, PartialOrd, Ord, Hash)]
pub struct Q40p24(pub i64);

/// The library's usual name for the fixed-point type.
pub type FP64 = Q40p24;

/// Raw value of the fixed-point product of two raw values.
pub open spec fn mul_raw(a: i64, b: i64) -> i64 {
    div_round(a * b, scale()) as i64
}

/// Raw value of the fixed-point quotient of two raw values (`b != 0`).
pub open spec fn div_raw(a: i64, b: i64) -> i64 {
    div_round(a * scale(), b as int) as i64
}

/// Raw value of `n` taken as an integer (wrapping at 64 bits).
pub open spec fn int_raw(n: int) -> i64 {
    (n * scale()) as i64
}

impl Q40p24 {
    pub const FRAC_BITS: u32 = 24;
    pub const SCALE: i64 = 16777216;
    pub const HALF: i64 = 8388608;
    pub const FRACTION_MASK: i64 = 16777215;

    /// The value zero.
    pub fn zero() -> (r: Q40p24)
        ensures
            r.0 == 0,
    {
        Q40p24(0)
    }

    /// The value one.
    pub fn one() -> (r: Q40p24)
        ensures
            r.0 == scale(),
    {
        Q40p24(Self::SCALE)
    }

    /// The smallest positive value.
    pub fn eps() -> (r: Q40p24)
        ensures
            r.0 == 1,
    {
        Q40p24(1)
    }

    /// The number whose raw bits are `raw`.
    pub fn from_raw(raw: i64) -> (r: Self)
        ensures
            r.0 == raw,
    {
        Q40p24(raw)
    }

    /// The raw bits.
    pub fn to_raw(self) -> (r: i64)
        ensures
            r == self.0,
    {
        self.0
    }

    /// The integer `n`; bits above the 40 integer bits are lost.
    pub fn from_int(n: i64) -> (r: Self)
        ensures
            r.0 == int_raw(n as int),
            -549755813888 <= n < 549755813888 ==> r.0 == n * scale(),
    {
        assert((n << 24u32) == (n * 16777216) as i64) by (bit_vector);
        assert(-549755813888 <= n < 549755813888 ==> (n * 16777216) as i64 == n * 16777216)
            by (bit_vector);
        Q40p24(n << 24u32)
    }

    /// The integer part taken by an arithmetic shift: the largest integer not above the value.
    pub fn trunc(self) -> (r: i64)
        ensures
            r == (self.0 as int) / scale(),
    {
        let x = self.0;
        assert((x >> 24u32) == x / 16777216) by (bit_vector);
        x >> 24u32
    }

    /// Round to nearest integer, ties away from zero.
    pub fn round(self) -> (r: i64)
        requires
            self.0 >= 0 ==> self.0 + half() <= i64::MAX,
            self.0 < 0 ==> self.0 - half() >= i64::MIN,
        ensures
            r == div_round(self.0 as int, scale()),
    {
        Self::round_raw(self.0)
    }

    /// Rounding of a raw value, defined for every raw value.
    fn round_raw(raw: i64) -> (r: i64)
        ensures
            r == div_round(raw as int, scale()),
    {
        let wide = raw as i128;
        if wide >= 0 {
            let m = (wide + 8388608) / 16777216;
            assert(m == (2 * (wide as int) + 16777216) / 33554432int) by (nonlinear_arith)
                requires
                    m == (wide + 8388608) / 16777216,
                    wide >= 0,
            ;
            m as i64
        } else {
            let m = (-wide + 8388608) / 16777216;
            assert(m == (2 * (-(wide as int)) + 16777216) / 33554432int) by (nonlinear_arith)
                requires
                    m == (-wide + 8388608) / 16777216,
                    wide < 0,
            ;
            (-m) as i64
        }
    }

    /// Floor toward -inf.
    pub fn floor(self) -> (r: i64)
        ensures
            r == (self.0 as int) / scale(),
            r * scale() <= self.0 as int && (self.0 as int) < (r + 1) * scale(),
    {
        self.trunc()
    }

    /// Ceil toward +inf.
    pub fn ceil(self) -> (r: i64)
        ensures
            r == if (self.0 as int) % scale() == 0 {
                (self.0 as int) / scale()
            } else {
                (self.0 as int) / scale() + 1
            },
            (r - 1) * scale() < self.0 as int && (self.0 as int) <= r * scale(),
    {
        let x = self.0;
        let t = self.trunc();
        assert((x & 16777215) == x % 16777216) by (bit_vector);
        if (x & Self::FRACTION_MASK) == 0 {
            t
        } else {
            t + 1
        }
    }

    /// Sum of all values, wrapping on overflow.
    pub fn sum(values: &[Q40p24]) -> (r: Q40p24)
        ensures
            r.0 == sum_raw(values@),
    {
        let mut acc = Q40p24::zero();
        let mut i: usize = 0;
        while i < values.len()
            invariant
                i <= values@.len(),
                acc.0 == sum_raw(values@.take(i as int)),
            decreases values@.len() - i,
        {
            assert(values@.take(i as int + 1).drop_last() =~= values@.take(i as int));
            acc = acc + values[i];
            i = i + 1;
        }
        assert(values@.take(values@.len() as int) =~= values@);
        acc
    }

    /// Product of all values, each step rounded as `*` rounds.
    pub fn product(values: &[Q40p24]) -> (r: Q40p24)
        ensures
            r.0 == product_raw(values@),
    {
        let mut acc = Q40p24::one();
        let mut i: usize = 0;
        while i < values.len()
            invariant
                i <= values@.len(),
                acc.0 == product_raw(values@.take(i as int)),
            decreases values@.len() - i,
        {
            assert(values@.take(i as int + 1).drop_last() =~= values@.take(i as int));
            acc = acc * values[i];
            i = i + 1;
        }
        assert(values@.take(values@.len() as int) =~= values@);
        acc
    }
}

/// Wrapping sum of the raw values, left to right.
pub open spec fn sum_raw(s: Seq<Q40p24>) -> i64
    decreases s.len(),
{
    if s.len() == 0 {
        0
    } else {
        vstd::wrapping::i64_specs::wrapping_add(sum_raw(s.drop_last()), s.last().0)
    }
}

/// Rounded product of the values, left to right, starting from one.
pub open spec fn product_raw(s: Seq<Q40p24>) -> i64
    decreases s.len(),
{
    if s.len() == 0 {
        16777216
    } else {
        mul_raw(product_raw(s.drop_last()), s.last().0)
    }
}

// ===== Arithmetic (wrapping add/sub, rounded mul/div) =====

impl Add for Q40p24 {
    type Output = Self;

    fn add(self, rhs: Self) -> (r: Self) {
        Q40p24(self.0.wrapping_add(rhs.0))
    }
}

impl AddSpecImpl for Q40p24 {
    open spec fn obeys_add_spec() -> bool {
        true
    }

    open spec fn add_req(self, rhs: Self) -> bool {
        true
    }

    open spec fn add_spec(self, rhs: Self) -> Self {
        Q40p24(vstd::wrapping::i64_specs::wrapping_add(self.0, rhs.0))
    }
}

impl AddAssign for Q40p24 {
    fn add_assign(&mut self, rhs: Self)
        ensures
            final(self).0 == vstd::wrapping::i64_specs::wrapping_add(old(self).0, rhs.0),
    {
        self.0 = self.0.wrapping_add(rhs.0);
    }
}

impl Sub for Q40p24 {
    type Output = Self;

    fn sub(self, rhs: Self) -> (r: Self) {
        Q40p24(self.0.wrapping_sub(rhs.0))
    }
}

impl SubSpecImpl for Q40p24 {
    open spec fn obeys_sub_spec() -> bool {
        true
    }

    open spec fn sub_req(self, rhs: Self) -> bool {
        true
    }

    open spec fn sub_spec(self, rhs: Self) -> Self {
        Q40p24(vstd::wrapping::i64_specs::wrapping_sub(self.0, rhs.0))
    }
}

impl SubAssign for Q40p24 {
    fn sub_assign(&mut self, rhs: Self)
        ensures
            final(self).0 == vstd::wrapping::i64_specs::wrapping_sub(old(self).0, rhs.0),
    {
        self.0 = self.0.wrapping_sub(rhs.0);
    }
}

impl Neg for Q40p24 {
    type Output = Self;

    fn neg(self) -> (r: Self) {
        Q40p24(0i64.wrapping_sub(self.0))
    }
}

impl NegSpecImpl for Q40p24 {
    open spec fn obeys_neg_spec() -> bool {
        true
    }

    open spec fn neg_req(self) -> bool {
        true
    }

    open spec fn neg_spec(self) -> Self {
        Q40p24(vstd::wrapping::i64_specs::wrapping_sub(0, self.0))
    }
}

impl Mul for Q40p24 {
    type Output = Self;

    /// (a*b) / 2^24, rounded to nearest, ties away from zero
    fn mul(self, rhs: Self) -> (r: Self) {
        let x = self.0 as i128;
        let y = rhs.0 as i128;
        assert(-0x4000_0000_0000_0000_0000_0000_0000_0000 <= x * y <= 0x4000_0000_0000_0000_0000_0000_0000_0000)
            by (nonlinear_arith)
            requires
                -0x8000_0000_0000_0000 <= x <= 0x8000_0000_0000_0000,
                -0x8000_0000_0000_0000 <= y <= 0x8000_0000_0000_0000,
        ;
        let prod = x * y;
        let mag: i128 = if prod >= 0 { prod } else { -prod };
        let m = (mag + 8388608) / 16777216;
        assert(m == (2 * (mag as int) + 16777216) / 33554432int) by (nonlinear_arith)
            requires
                m == (mag + 8388608) / 16777216,
                mag >= 0,
        ;
        let q = if prod >= 0 { m } else { -m };
        Q40p24(q as i64)
    }
}

impl MulSpecImpl for Q40p24 {
    open spec fn obeys_mul_spec() -> bool {
        true
    }

    open spec fn mul_req(self, rhs: Self) -> bool {
        true
    }

    open spec fn mul_spec(self, rhs: Self) -> Self {
        Q40p24(mul_raw(self.0, rhs.0))
    }
}

impl MulAssign for Q40p24 {
    fn mul_assign(&mut self, rhs: Self)
        ensures
            final(self).0 == mul_raw(old(self).0, rhs.0),
    {
        *self = *self * rhs;
    }
}

impl Div for Q40p24 {
    type Output = Self;

    /// (a * 2^24) / b rounded to nearest, ties away from zero
    fn div(self, rhs: Self) -> (r: Self) {
        let num = (self.0 as i128) * 16777216;
        let den = rhs.0 as i128;
        let a: i128 = if num >= 0 { num } else { -num };
        let b: i128 = if den >= 0 { den } else { -den };
        assert(0 < b <= 0x8000_0000_0000_0000);
        assert(0 <= a <= 0x8000_0000_0000_0000 * 16777216);
        let m = (2 * a + b) / (2 * b);
        let q = if (num >= 0 && den >= 0) || (num < 0 && den < 0) {
            m
        } else {
            -(m as i128)
        };
        proof {
            assert(0 <= m <= 2 * a + b) by (nonlinear_arith)
                requires
                    m == (2 * a + b) / (2 * b),
                    a >= 0,
                    b > 0,
            ;
        }
        Q40p24(q as i64)
    }
}

impl DivSpecImpl for Q40p24 {
    open spec fn obeys_div_spec() -> bool {
        true
    }

    open spec fn div_req(self, rhs: Self) -> bool {
        rhs.0 != 0
    }

    open spec fn div_spec(self, rhs: Self) -> Self {
        Q40p24(div_raw(self.0, rhs.0))
    }
}

impl DivAssign for Q40p24 {
    fn div_assign(&mut self, rhs: Self)
        requires
            rhs.0 != 0,
        ensures
            final(self).0 == div_raw(old(self).0, rhs.0),
    {
        *self = *self / rhs;
    }
}

/// Remainder using integer semantics on raw storage (trunc toward zero
/// division).
impl Rem for Q40p24 {
    type Output = Self;

    fn rem(self, rhs: Self) -> (r: Self) {
        Q40p24(rem_i64(self.0, rhs.0))
    }
}

impl RemSpecImpl for Q40p24 {
    open spec fn obeys_rem_spec() -> bool {
        true
    }

    open spec fn rem_req(self, rhs: Self) -> bool {
        rhs.0 != 0 && !(self.0 == i64::MIN && rhs.0 == -1)
    }

    open spec fn rem_spec(self, rhs: Self) -> Self {
        Q40p24(rem_trunc(self.0 as int, rhs.0 as int) as i64)
    }
}

impl RemAssign for Q40p24 {
    fn rem_assign(&mut self, rhs: Self)
        requires
            rhs.0 != 0,
            !(old(self).0 == i64::MIN && rhs.0 == -1),
        ensures
            final(self).0 == rem_trunc(old(self).0 as int, rhs.0 as int),
    {
        self.0 = rem_i64(self.0, rhs.0);
    }
}

/// Remainder of the division of `a` by `b` truncated toward zero; it has the sign of `a`.
fn rem_i64(a: i64, b: i64) -> (r: i64)
    requires
        b != 0,
        !(a == i64::MIN && b == -1),
    ensures
        r == rem_trunc(a as int, b as int),
{
    let wa = a as i128;
    let wb = b as i128;
    let ua: i128 = if wa >= 0 { wa } else { -wa };
    let ub: i128 = if wb >= 0 { wb } else { -wb };
    let ur = ua % ub;
    let q = ua / ub;
    proof {
        assert(ua == q * ub + ur) by (nonlinear_arith)
            requires ub > 0, ua >= 0, q == ua / ub, ur == ua % ub;
        assert(0 <= ur < ub);
        assert(abs_int(a as int) == ua);
        assert(abs_int(b as int) == ub);
        let d = div_trunc(a as int, b as int);
        if (a >= 0) == (b >= 0) {
            assert(d == q);
            if a >= 0 {
                assert((b as int) * q == ub * q);
            } else {
                assert((b as int) * q == -(ub * q)) by (nonlinear_arith)
                    requires b == -ub;
            }
        } else {
            assert(d == -q);
            if a >= 0 {
                assert((b as int) * (-q) == ub * q) by (nonlinear_arith)
                    requires b == -ub;
            } else {
                assert((b as int) * (-q) == -(ub * q)) by (nonlinear_arith)
                    requires b == ub;
            }
        }
    }
    if wa >= 0 {
        ur as i64
    } else {
        (-ur) as i64
    }
}

// ===== Conversions =====

impl From<i8> for Q40p24 {
    fn from(v: i8) -> (r: Self) {
        Q40p24::from_int(v as i64)
    }
}

impl FromSpecImpl<i8> for Q40p24 {
    open spec fn obeys_from_spec() -> bool {
        true
    }

    open spec fn from_spec(v: i8) -> Self {
        Q40p24((v * scale()) as i64)
    }
}

impl From<i16> for Q40p24 {
    fn from(v: i16) -> (r: Self) {
        Q40p24::from_int(v as i64)
    }
}

impl FromSpecImpl<i16> for Q40p24 {
    open spec fn obeys_from_spec() -> bool {
        true
    }

    open spec fn from_spec(v: i16) -> Self {
        Q40p24((v * scale()) as i64)
    }
}

impl From<u32> for Q40p24 {
    fn from(v: u32) -> (r: Self) {
        Q40p24::from_int(v as i64)
    }
}

impl FromSpecImpl<u32> for Q40p24 {
    open spec fn obeys_from_spec() -> bool {
        true
    }

    open spec fn from_spec(v: u32) -> Self {
        Q40p24((v * scale()) as i64)
    }
}

impl From<i32> for Q40p24 {
    fn from(v: i32) -> (r: Self) {
        Q40p24::from_int(v as i64)
    }
}

impl FromSpecImpl<i32> for Q40p24 {
    open spec fn obeys_from_spec() -> bool {
        true
    }

    open spec fn from_spec(v: i32) -> Self {
        Q40p24((v * scale()) as i64)
    }
}

impl From<i64> for Q40p24 {
    fn from(v: i64) -> (r: Self) {
        Q40p24::from_int(v)
    }
}

impl FromSpecImpl<i64> for Q40p24 {
    open spec fn obeys_from_spec() -> bool {
        true
    }

    open spec fn from_spec(v: i64) -> Self {
        Q40p24(int_raw(v as int))
    }
}

/// The error of a `u64` that has no Q40.24 value.
pub const U64_OUT_OF_RANGE: &'static str = "u64 value out of range for Q40p24";

impl TryFrom<u64> for Q40p24 {
    type Error = &'static str;

    fn try_from(v: u64) -> (r: Result<Self, Self::Error>) {
        if v <= 549755813887 {
            Ok(Q40p24::from_int(v as i64))
        } else {
            Err(U64_OUT_OF_RANGE)
        }
    }
}

impl TryFromSpecImpl<u64> for Q40p24 {
    open spec fn obeys_try_from_spec() -> bool {
        true
    }

    open spec fn try_from_spec(v: u64) -> Result<Self, Self::Error> {
        if v <= 549755813887 {
            Ok(Q40p24((v * scale()) as i64))
        } else {
            Err(U64_OUT_OF_RANGE)
        }
    }
}

impl From<Q40p24> for u64 {
    fn from(v: Q40p24) -> (r: u64) {
        let n = Q40p24::round_raw(v.0);
        if n > 0 {
            n as u64
        } else {
            0
        }
    }
}

impl FromSpecImpl<Q40p24> for u64 {
    open spec fn obeys_from_spec() -> bool {
        true
    }

    open spec fn from_spec(v: Q40p24) -> u64 {
        let n = div_round(v.0 as int, scale());
        if n > 0 {
            n as u64
        } else {
            0
        }
    }
}

impl From<Q40p24> for i64 {
    fn from(v: Q40p24) -> (r: i64) {
        Q40p24::round_raw(v.0)
    }
}

impl FromSpecImpl<Q40p24> for i64 {
    open spec fn obeys_from_spec() -> bool {
        true
    }

    open spec fn from_spec(v: Q40p24) -> i64 {
        div_round(v.0 as int, scale()) as i64
    }
}

impl From<Q40p24> for i32 {
    fn from(v: Q40p24) -> (r: i32) {
        Q40p24::round_raw(v.0) as i32
    }
}

impl FromSpecImpl<Q40p24> for i32 {
    open spec fn obeys_from_spec() -> bool {
        true
    }

    open spec fn from_spec(v: Q40p24) -> i32 {
        div_round(v.0 as int, scale()) as i32
    }
}


// ===== Convenience ops with integers =====

impl Add<u32> for Q40p24 {
    type Output = Self;

    fn add(self, rhs: u32) -> (r: Self) {
        self + Q40p24::from_int(rhs as i64)
    }
}

impl AddSpecImpl<u32> for Q40p24 {
    open spec fn obeys_add_spec() -> bool {
        true
    }

    open spec fn add_req(self, rhs: u32) -> bool {
        true
    }

    open spec fn add_spec(self, rhs: u32) -> Self {
        Q40p24(vstd::wrapping::i64_specs::wrapping_add(self.0, int_raw(rhs as int)))
    }
}

impl Sub<u32> for Q40p24 {
    type Output = Self;

    fn sub(self, rhs: u32) -> (r: Self) {
        self - Q40p24::from_int(rhs as i64)
    }
}

impl SubSpecImpl<u32> for Q40p24 {
    open spec fn obeys_sub_spec() -> bool {
        true
    }

    open spec fn sub_req(self, rhs: u32) -> bool {
        true
    }

    open spec fn sub_spec(self, rhs: u32) -> Self {
        Q40p24(vstd::wrapping::i64_specs::wrapping_sub(self.0, int_raw(rhs as int)))
    }
}

impl AddAssign<u32> for Q40p24 {
    fn add_assign(&mut self, rhs: u32)
        ensures
            final(self).0 == vstd::wrapping::i64_specs::wrapping_add(old(self).0, int_raw(rhs as int)),
    {
        *self = *self + rhs;
    }
}

impl SubAssign<u32> for Q40p24 {
    fn sub_assign(&mut self, rhs: u32)
        ensures
            final(self).0 == vstd::wrapping::i64_specs::wrapping_sub(old(self).0, int_raw(rhs as int)),
    {
        *self = *self - rhs;
    }
}

impl Add<i64> for Q40p24 {
    type Output = Self;

    fn add(self, rhs: i64) -> (r: Self) {
        self + Q40p24::from_int(rhs)
    }
}

impl AddSpecImpl<i64> for Q40p24 {
    open spec fn obeys_add_spec() -> bool {
        true
    }

    open spec fn add_req(self, rhs: i64) -> bool {
        true
    }

    open spec fn add_spec(self, rhs: i64) -> Self {
        Q40p24(vstd::wrapping::i64_specs::wrapping_add(self.0, int_raw(rhs as int)))
    }
}

impl Sub<i64> for Q40p24 {
    type Output = Self;

    fn sub(self, rhs: i64) -> (r: Self) {
        self - Q40p24::from_int(rhs)
    }
}

impl SubSpecImpl<i64> for Q40p24 {
    open spec fn obeys_sub_spec() -> bool {
        true
    }

    open spec fn sub_req(self, rhs: i64) -> bool {
        true
    }

    open spec fn sub_spec(self, rhs: i64) -> Self {
        Q40p24(vstd::wrapping::i64_specs::wrapping_sub(self.0, int_raw(rhs as int)))
    }
}

impl Mul<u32> for Q40p24 {
    type Output = Self;

    fn mul(self, rhs: u32) -> (r: Self) {
        self * Q40p24::from_int(rhs as i64)
    }
}

impl MulSpecImpl<u32> for Q40p24 {
    open spec fn obeys_mul_spec() -> bool {
        true
    }

    open spec fn mul_req(self, rhs: u32) -> bool {
        true
    }

    open spec fn mul_spec(self, rhs: u32) -> Self {
        Q40p24(mul_raw(self.0, int_raw(rhs as int)))
    }
}

impl Mul<i32> for Q40p24 {
    type Output = Self;

    fn mul(self, rhs: i32) -> (r: Self) {
        self * Q40p24::from_int(rhs as i64)
    }
}

impl MulSpecImpl<i32> for Q40p24 {
    open spec fn obeys_mul_spec() -> bool {
        true
    }

    open spec fn mul_req(self, rhs: i32) -> bool {
        true
    }

    open spec fn mul_spec(self, rhs: i32) -> Self {
        Q40p24(mul_raw(self.0, int_raw(rhs as int)))
    }
}

impl Mul<i64> for Q40p24 {
    type Output = Self;

    fn mul(self, rhs: i64) -> (r: Self) {
        self * Q40p24::from_int(rhs)
    }
}

impl MulSpecImpl<i64> for Q40p24 {
    open spec fn obeys_mul_spec() -> bool {
        true
    }

    open spec fn mul_req(self, rhs: i64) -> bool {
        true
    }

    open spec fn mul_spec(self, rhs: i64) -> Self {
        Q40p24(mul_raw(self.0, int_raw(rhs as int)))
    }
}

impl Div<i64> for Q40p24 {
    type Output = Self;

    fn div(self, rhs: i64) -> (r: Self) {
        self / Q40p24::from_int(rhs)
    }
}

impl DivSpecImpl<i64> for Q40p24 {
    open spec fn obeys_div_spec() -> bool {
        true
    }

    open spec fn div_req(self, rhs: i64) -> bool {
        int_raw(rhs as int) != 0
    }

    open spec fn div_spec(self, rhs: i64) -> Self {
        Q40p24(div_raw(self.0, int_raw(rhs as int)))
    }
}

impl AddAssign<i64> for Q40p24 {
    fn add_assign(&mut self, rhs: i64)
        ensures
            final(self).0 == vstd::wrapping::i64_specs::wrapping_add(old(self).0, int_raw(rhs as int)),
    {
        *self = *self + rhs;
    }
}

impl SubAssign<i64> for Q40p24 {
    fn sub_assign(&mut self, rhs: i64)
        ensures
            final(self).0 == vstd::wrapping::i64_specs::wrapping_sub(old(self).0, int_raw(rhs as int)),
    {
        *self = *self - rhs;
    }
}

impl MulAssign<i64> for Q40p24 {
    fn mul_assign(&mut self, rhs: i64)
        ensures
            final(self).0 == mul_raw(old(self).0, int_raw(rhs as int)),
    {
        *self = *self * rhs;
    }
}

impl DivAssign<i64> for Q40p24 {
    fn div_assign(&mut self, rhs: i64)
        requires
            int_raw(rhs as int) != 0,
        ensures
            final(self).0 == div_raw(old(self).0, int_raw(rhs as int)),
    {
        *self = *self / rhs;
    }
}

// ===== Formatting =====

/// `digits` left-padded with '0' to at least six characters.
pub open spec fn zero_pad6(digits: Seq<char>) -> Seq<char> {
    if digits.len() >= 6 {
        digits
    } else {
        Seq::new((6 - digits.len()) as nat, |i: int| '0') + digits
    }
}

/// Fractional digits (six, rounded half up) of a non-negative raw value.
pub open spec fn frac6_of(abs: int) -> int {
    ((abs % scale()) * 1000000 + half()) / scale()
}

/// Decimal text of a raw value with six fractional digits, rounded; "0" for zero.
pub open spec fn display_text(raw: i64) -> Seq<char> {
    if raw == 0 {
        seq!['0']
    } else {
        let neg = raw < 0;
        let abs: i64 = if neg { vstd::wrapping::i64_specs::wrapping_sub(0, raw) } else { raw };
        let ip = (abs as int) / scale();
        let f6 = frac6_of(abs as int);
        let ip2 = if f6 == 1000000 { ip + 1 } else { ip };
        let f6b = if f6 == 1000000 { 0 } else { f6 };
        (if neg { seq!['-'] } else { Seq::<char>::empty() }) + int_decimal(ip2) + seq!['.']
            + zero_pad6(nat_decimal(f6b as nat))
    }
}

impl Q40p24 {
    /// Decimal text with six fractional digits, rounded ("1.029802" for one plus
    /// 500000 raw units); "0" for zero.
    pub fn to_string(&self) -> (s: String)
        ensures
            s@ == display_text(self.0),
    {
        let raw = self.0;
        if raw == 0 {
            let s = String::from_str("0");
            proof {
                reveal_strlit("0");
            }
            return s;
        }
        let neg = raw < 0;
        let abs = if neg { 0i64.wrapping_sub(raw) } else { raw };
        let mut int_part: i64 = abs >> 24u32;
        assert((abs >> 24u32) == abs / 16777216) by (bit_vector);
        let frac_raw = abs & Self::FRACTION_MASK;
        assert((abs & 16777215) == abs % 16777216) by (bit_vector);
        let mut frac6: i128 = ((frac_raw as i128) * 1000000 + 8388608) / 16777216;
        assert(0 <= frac6 <= 1000000) by (nonlinear_arith)
            requires
                frac6 == ((frac_raw as i128) * 1000000 + 8388608) / 16777216,
                0 <= frac_raw < 16777216,
        ;
        if frac6 == 1000000 {
            frac6 = 0;
            int_part = int_part + 1;
        }
        let mut s = if neg { String::from_str("-") } else { String::new() };
        proof {
            reveal_strlit("-");
            reveal_strlit(".");
            reveal_strlit("0");
        }
        let ip = i64_decimal(int_part);
        s.append(ip.as_str());
        s.append(".");
        let digits = i64_decimal(frac6 as i64);
        proof {
            lemma_nat_decimal_len(frac6 as nat);
        }
        let n = digits.as_str().unicode_len();
        let mut k: usize = n;
        let ghost before = s@;
        while k < 6
            invariant
                n <= k <= 6,
                n == digits@.len(),
                s@ == before + Seq::new((k - n) as nat, |i: int| '0'),
            decreases 6 - k,
        {
            s.append("0");
            proof {
                reveal_strlit("0");
            }
            assert(s@ =~= before + Seq::new((k + 1 - n) as nat, |i: int| '0'));
            k = k + 1;
        }
        s.append(digits.as_str());
        assert(s@ =~= display_text(raw));
        s
    }
}


// ---- laws ----

/// Adding a value and then subtracting it gives back what there was, even
/// when the addition wraps.
pub proof fn law_add_then_sub(a: Q40p24, b: Q40p24)
    ensures
        vstd::std_specs::ops::SubSpec::sub_spec(vstd::std_specs::ops::AddSpec::add_spec(a, b), b) == a,
{
}

/// Subtracting a value and then adding it back gives back what there was.
pub proof fn law_sub_then_add(a: Q40p24, b: Q40p24)
    ensures
        vstd::std_specs::ops::AddSpec::add_spec(vstd::std_specs::ops::SubSpec::sub_spec(a, b), b) == a,
{
}

/// Negating twice gives back the value.
pub proof fn law_neg_involutive(a: Q40p24)
    ensures
        vstd::std_specs::ops::NegSpec::neg_spec(vstd::std_specs::ops::NegSpec::neg_spec(a)) == a,
{
}

/// An integer within the documented range [-2^39, 2^39) comes back out of
/// `from_int` unchanged by `trunc`, `floor`, `ceil` and `round`.
pub proof fn law_int_round_trip(n: i64)
    requires
        -549755813888 <= n < 549755813888,
    ensures
        int_raw(n as int) == n * scale(),
        (int_raw(n as int) as int) / scale() == n,
        (int_raw(n as int) as int) % scale() == 0,
        div_round(int_raw(n as int) as int, scale()) == n,
{
    let r = n * 16777216;
    assert(-0x8000_0000_0000_0000 <= r < 0x8000_0000_0000_0000);
    assert(r / 16777216 == n && r % 16777216 == 0) by (nonlinear_arith)
        requires
            r == n * 16777216,
    ;
    assert(abs_int(r) == abs_int(n as int) * 16777216);
    assert((2 * abs_int(r) + 16777216) / 33554432 == abs_int(n as int)) by (nonlinear_arith)
        requires
            abs_int(r) == abs_int(n as int) * 16777216,
            abs_int(n as int) >= 0,
    ;
}

/// Multiplying by one and dividing by one leave a value unchanged.
pub proof fn law_mul_div_one(a: Q40p24)
    ensures
        vstd::std_specs::ops::MulSpec::mul_spec(a, Q40p24(scale() as i64)) == a,
        vstd::std_specs::ops::DivSpec::div_spec(a, Q40p24(scale() as i64)) == a,
{
    let x = a.0 as int;
    assert(abs_int(x * 16777216) == abs_int(x) * 16777216);
    assert((2 * abs_int(x * 16777216) + 16777216) / 33554432 == abs_int(x)) by (nonlinear_arith)
        requires
            abs_int(x * 16777216) == abs_int(x) * 16777216,
            abs_int(x) >= 0,
    ;
    assert(x * 16777216 == 16777216 * x);
}

} // verus!
