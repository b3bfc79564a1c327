use stitchlands::fixed_point::Q40p24 as Q;

#[test]
fn basics() {
    let a = Q::from_int(2);
    let b = Q::from_int(3);
    assert_eq!(i64::from(a + b), 5);
    assert_eq!(i64::from(b - a), 1);
    assert_eq!(i64::from(a * b), 6);
    assert_eq!(i64::from(b / a), 2); // 3/2 rounded to nearest -> 2
}

#[test]
fn display() {
    let q = Q::from_int(1) + Q::from_raw(500_000); // ~1.0298
    let s = q.to_string();
    assert!(s.starts_with("1."));
}

#[test]
fn display_exact_digits() {
    assert_eq!(Q::from_int(3).to_string(), "3.000000");
    assert_eq!(Q::from_int(-2).to_string(), "-2.000000");
    assert_eq!(Q::from_raw(8_388_608).to_string(), "0.500000");
}

#[test]
fn rounding_follows_the_documentation() {
    // 2.5 rounds away from zero, -2.5 too.
    let two_and_half = Q::from_raw(5 * 8_388_608);
    assert_eq!(two_and_half.round(), 3);
    assert_eq!(Q::from_raw(-5 * 8_388_608).round(), -3);
    // Floor goes toward -inf, ceil toward +inf.
    let minus_one_and_quarter = Q::from_raw(-(16_777_216 + 4_194_304));
    assert_eq!(minus_one_and_quarter.floor(), -2);
    assert_eq!(minus_one_and_quarter.ceil(), -1);
    assert_eq!(minus_one_and_quarter.trunc(), -2);
    assert_eq!(two_and_half.floor(), 2);
    assert_eq!(two_and_half.ceil(), 3);
    assert_eq!(Q::from_int(7).ceil(), 7);
    assert_eq!(Q::from_int(-7).floor(), -7);
}

#[test]
fn int_round_trip_law() {
    for n in [-549_755_813_888i64, -1000, -1, 0, 1, 42, 549_755_813_887] {
        let q = Q::from_int(n);
        assert_eq!(q.trunc(), n);
        assert_eq!(q.floor(), n);
        assert_eq!(q.ceil(), n);
        assert_eq!(q.round(), n);
    }
}

#[test]
fn add_sub_and_neg_laws_wrap() {
    let a = Q::from_raw(i64::MAX - 3);
    let b = Q::from_raw(10);
    assert_eq!((a + b) - b, a);
    assert_eq!((a - b) + b, a);
    assert_eq!(-(-a), a);
    let m = Q::from_raw(i64::MIN);
    assert_eq!(-(-m), m);
}

#[test]
fn multiplying_and_dividing_by_one() {
    let x = Q::from_raw(123_456_789);
    assert_eq!(x * Q::one(), x);
    assert_eq!(x / Q::one(), x);
    assert_eq!(Q::one().to_raw(), 16_777_216);
    assert_eq!(Q::zero().to_raw(), 0);
    assert_eq!(Q::eps().to_raw(), 1);
}

#[test]
fn mul_rounds_to_nearest() {
    // 1.5 * 1.5 = 2.25 exactly
    let one_half = Q::from_raw(16_777_216 + 8_388_608);
    assert_eq!((one_half * one_half).to_raw(), 2 * 16_777_216 + 4_194_304);
    // eps * eps rounds to zero; eps * 0.5 rounds half away from zero to ... 0.5 eps -> 1
    assert_eq!((Q::eps() * Q::eps()).to_raw(), 0);
    assert_eq!((Q::eps() * Q::from_raw(8_388_608)).to_raw(), 1);
    assert_eq!((-Q::eps() * Q::from_raw(8_388_608)).to_raw(), -1);
}

#[test]
fn sums_and_products() {
    let vals = [Q::from_int(1), Q::from_int(2), Q::from_int(3)];
    assert_eq!(Q::sum(&vals), Q::from_int(6));
    assert_eq!(Q::product(&vals), Q::from_int(6));
    assert_eq!(Q::sum(&[]), Q::zero());
    assert_eq!(Q::product(&[]), Q::one());
}

#[test]
fn conversions() {
    assert_eq!(u64::from(Q::from_int(-4)), 0);
    assert_eq!(u64::from(Q::from_int(9)), 9);
    assert_eq!(i32::from(Q::from_raw(3 * 8_388_608)), 2); // 1.5 -> 2
    assert!(Q::try_from(u64::MAX).is_err());
    assert_eq!(Q::try_from(5u64).unwrap(), Q::from_int(5));
    assert_eq!(Q::from(7u32), Q::from_int(7));
    assert_eq!(Q::from(-3i32), Q::from_int(-3));
    assert_eq!(Q::from_int(2) * 3i64, Q::from_int(6));
}
