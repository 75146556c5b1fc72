use corset::field::Fr;
use corset::integer::Integer;

fn fr(x: u64) -> Fr {
    Fr::from_u64(x)
}

const MODULUS: &str =
    "21888242871839275222246405745257275088548364400416034343698204186575808495617";
const MODULUS_MINUS_ONE: &str =
    "21888242871839275222246405745257275088548364400416034343698204186575808495616";

#[test]
fn zero_and_one() {
    assert!(Fr::zero().is_zero());
    assert!(!Fr::one().is_zero());
    assert!(Fr::one().is_one());
    assert_eq!(Fr::from_u64(0), Fr::zero());
    assert_eq!(Fr::from_u64(1), Fr::one());
    assert_eq!(Fr::one().to_u64(), Some(1));
}

#[test]
fn addition_wraps_at_the_modulus() {
    assert_eq!(fr(2).add(&fr(3)), fr(5));
    let top = Fr::from_str(MODULUS_MINUS_ONE).unwrap();
    assert_eq!(top.add(&fr(1)), Fr::zero());
    assert_eq!(top.add(&fr(3)), fr(2));
}

#[test]
fn subtraction_wraps_below_zero() {
    assert_eq!(fr(5).sub(&fr(3)), fr(2));
    let top = Fr::from_str(MODULUS_MINUS_ONE).unwrap();
    assert_eq!(fr(0).sub(&fr(1)), top);
    assert_eq!(fr(3).sub(&fr(3)), fr(0));
}

#[test]
fn multiplication() {
    assert_eq!(fr(6).mul(&fr(7)), fr(42));
    let top = Fr::from_str(MODULUS_MINUS_ONE).unwrap();
    // (-1) * (-1) = 1
    assert_eq!(top.mul(&top), fr(1));
    assert_eq!(fr(0).mul(&top), fr(0));
}

#[test]
fn negation() {
    assert_eq!(fr(0).neg(), fr(0));
    let top = Fr::from_str(MODULUS_MINUS_ONE).unwrap();
    assert_eq!(fr(1).neg(), top);
    assert_eq!(top.neg(), fr(1));
    assert_eq!(fr(5).neg().add(&fr(5)), fr(0));
}

#[test]
fn inverse_of_zero_is_absent() {
    assert_eq!(Fr::zero().inverse(), None);
    assert_eq!(Fr::zero().inverse_or_zero(), Fr::zero());
}

#[test]
fn inverse_times_element_is_one() {
    for x in [1u64, 2, 3, 255, 65537, u64::MAX] {
        let e = fr(x);
        let i = e.inverse().unwrap();
        assert_eq!(e.mul(&i), fr(1));
        assert_eq!(e.inverse_or_zero(), i);
    }
    assert_eq!(fr(1).inverse(), Some(fr(1)));
}

#[test]
fn decimal_numerals_are_read() {
    assert_eq!(Fr::from_str("0"), Some(fr(0)));
    assert_eq!(Fr::from_str("7"), Some(fr(7)));
    assert_eq!(Fr::from_str("18446744073709551615"), Some(fr(u64::MAX)));
    // 2^64
    let big = Fr::from_str("18446744073709551616").unwrap();
    assert_eq!(big, fr(u64::MAX).add(&fr(1)));
    assert_eq!(big.to_u64(), None);
}

#[test]
fn decimal_numerals_are_reduced() {
    assert_eq!(Fr::from_str(MODULUS), Some(fr(0)));
    assert_eq!(
        Fr::from_str("21888242871839275222246405745257275088548364400416034343698204186575808495619"),
        Some(fr(2))
    );
}

#[test]
fn malformed_numerals_are_refused() {
    assert_eq!(Fr::from_str(""), None);
    assert_eq!(Fr::from_str("00"), None);
    assert_eq!(Fr::from_str("01"), None);
    assert_eq!(Fr::from_str("-1"), None);
    assert_eq!(Fr::from_str("+1"), None);
    assert_eq!(Fr::from_str("12a"), None);
    assert_eq!(Fr::from_str("1 2"), None);
    assert_eq!(Fr::from_str("0x10"), None);
}

#[test]
fn order_is_that_of_the_representatives() {
    assert!(fr(1).lt(&fr(2)));
    assert!(!fr(2).lt(&fr(1)));
    assert!(!fr(2).lt(&fr(2)));
    let big = Fr::from_str("18446744073709551616").unwrap();
    assert!(fr(u64::MAX).lt(&big));
    assert!(!big.lt(&fr(u64::MAX)));
    let top = Fr::from_str(MODULUS_MINUS_ONE).unwrap();
    assert!(big.lt(&top));
    assert!(fr(0).lt(&top));
}

#[test]
fn limbs_outside_the_field_are_refused() {
    assert_eq!(Fr::from_limbs(5, 0, 0, 0), Some(fr(5)));
    // The modulus itself.
    assert_eq!(
        Fr::from_limbs(
            0x43e1f593f0000001,
            0x2833e84879b97091,
            0xb85045b68181585d,
            0x30644e72e131a029
        ),
        None
    );
    // One less.
    assert_eq!(
        Fr::from_limbs(
            0x43e1f593f0000000,
            0x2833e84879b97091,
            0xb85045b68181585d,
            0x30644e72e131a029
        ),
        Fr::from_str(MODULUS_MINUS_ONE)
    );
    assert_eq!(Fr::from_limbs(0, 0, 0, u64::MAX), None);
}

#[test]
fn hex_rendering() {
    assert_eq!(fr(0).to_hex(), "0x0");
    assert_eq!(fr(1).to_hex(), "0x01");
    assert_eq!(fr(255).to_hex(), "0x0ff");
    assert_eq!(fr(256).to_hex(), "0x0100");
    assert_eq!(fr(u64::MAX).to_hex(), "0x0ffffffffffffffff");
    assert_eq!(
        Fr::from_str(MODULUS_MINUS_ONE).unwrap().to_hex(),
        "0x030644e72e131a029b85045b68181585d2833e84879b9709143e1f593f0000000"
    );
}

#[test]
fn hex_parsing() {
    assert_eq!(Fr::from_hex("0x0"), Some(fr(0)));
    assert_eq!(Fr::from_hex("0x01"), Some(fr(1)));
    assert_eq!(Fr::from_hex("0x0ff"), Some(fr(255)));
    assert_eq!(Fr::from_hex("0x0FF"), Some(fr(255)));
    assert_eq!(Fr::from_hex("0x000ff"), Some(fr(255)));
    assert_eq!(Fr::from_hex("0xff"), None);
    assert_eq!(Fr::from_hex("ff"), None);
    assert_eq!(Fr::from_hex(""), None);
    assert_eq!(Fr::from_hex("0x0g"), None);
    // The modulus is not in the field.
    assert_eq!(
        Fr::from_hex("0x030644e72e131a029b85045b68181585d2833e84879b9709143e1f593f0000001"),
        None
    );
    // Nor is anything that does not fit in 256 bits.
    assert_eq!(
        Fr::from_hex("0x010000000000000000000000000000000000000000000000000000000000000000"),
        None
    );
}

#[test]
fn hex_round_trip() {
    let samples = [
        fr(0),
        fr(1),
        fr(15),
        fr(16),
        fr(0xdeadbeef),
        fr(u64::MAX),
        Fr::from_str("18446744073709551616").unwrap(),
        Fr::from_str(MODULUS_MINUS_ONE).unwrap(),
        fr(3).inverse().unwrap(),
    ];
    for x in samples {
        assert_eq!(Fr::from_hex(&x.to_hex()), Some(x));
    }
}

#[test]
fn integers_from_machine_numbers() {
    assert!(Integer::from_u64(0).is_zero());
    assert!(Integer::from_u64(1).is_one());
    assert!(!Integer::from_u64(2).is_one());
    assert!(Integer::from_i64(-3).is_negative());
    assert!(!Integer::from_i64(3).is_negative());
    assert_eq!(Integer::from_i64(-3).to_isize(), Some(-3));
    assert_eq!(Integer::from_i64(i64::MIN).to_isize(), Some(isize::MIN));
    assert_eq!(Integer::from_i64(-3).to_usize(), None);
    assert_eq!(Integer::from_usize(17).to_usize(), Some(17));
    assert_eq!(Integer::from_u64(u64::MAX).to_usize(), Some(usize::MAX));
    assert_eq!(Integer::from_u64(u64::MAX).to_isize(), None);
}

#[test]
fn integer_arithmetic() {
    let a = Integer::from_i64(1_000_000_007);
    let b = Integer::from_i64(-12);
    assert!(a.add(&b).equals(&Integer::from_i64(999_999_995)));
    assert!(a.sub(&b).equals(&Integer::from_i64(1_000_000_019)));
    assert!(a.mul(&b).equals(&Integer::from_i64(-12_000_000_084)));
    assert!(b.neg().equals(&Integer::from_i64(12)));
    assert!(a.sub(&a).is_zero());
    assert!(Integer::from_i64(0).neg().is_zero());
    assert!(!a.equals(&b));
}

#[test]
fn integer_arithmetic_beyond_machine_numbers() {
    let big = Integer::from_u64(u64::MAX);
    let square = big.mul(&big);
    // (2^64 - 1)^2 = 2^128 - 2^65 + 1
    let (negative, digits) = square.to_parts();
    assert!(!negative);
    assert_eq!(digits, vec![1, 0, 0xffff_fffe, 0xffff_ffff]);
    assert_eq!(square.to_usize(), None);
    assert!(square.sub(&square).is_zero());
    let sum = big.add(&Integer::from_u64(1));
    assert_eq!(sum.to_parts(), (false, vec![0, 0, 1]));
}

#[test]
fn integers_from_parts_are_normalised() {
    let x = Integer::from_parts(false, vec![5, 0, 0]);
    assert!(x.equals(&Integer::from_u64(5)));
    assert_eq!(x.to_parts(), (false, vec![5]));
    let zero = Integer::from_parts(true, vec![0, 0]);
    assert!(zero.is_zero());
    assert!(!zero.is_negative());
    let neg = Integer::from_parts(true, vec![7]);
    assert!(neg.equals(&Integer::from_i64(-7)));
}

#[test]
fn integers_in_the_field() {
    assert_eq!(Integer::from_u64(42).to_field(), Some(fr(42)));
    assert_eq!(Integer::from_i64(-1).to_field(), None);
    assert_eq!(Integer::from_u64(0).to_field(), Some(fr(0)));
    // The modulus, as digits in base 2^32, least significant first.
    let modulus = Integer::from_parts(
        false,
        vec![
            0xf0000001, 0x43e1f593, 0x79b97091, 0x2833e848, 0x8181585d, 0xb85045b6, 0xe131a029,
            0x30644e72,
        ],
    );
    assert_eq!(modulus.to_field(), None);
    let below = modulus.sub(&Integer::from_u64(1));
    assert_eq!(below.to_field(), Fr::from_str(MODULUS_MINUS_ONE));
    let nine_digits = Integer::from_parts(false, vec![0, 0, 0, 0, 0, 0, 0, 0, 1]);
    assert_eq!(nine_digits.to_field(), None);
}
