//! The scalar field of the BN254 curve.
//!
//! An element is held as the four 64-bit limbs of its canonical
//! representative, least significant first. Arithmetic is done by the
//! `pairing_ce` crate; what this module states of it is marked as trusted.

use crate::text::{from_chars, push_char, to_chars};
use pairing_ce::ff::{Field, PrimeField};
use vstd::prelude::*;
use vstd::string::*;

verus! {

/// The order of the field.
pub open spec fn modulus() -> nat {
    21888242871839275222246405745257275088548364400416034343698204186575808495617nat
}

/// Two to the power 64: the base in which the limbs are digits.
pub open spec fn limb_base() -> nat {
    0x1_0000_0000_0000_0000nat
}

/// The number that four limbs write, least significant first.
pub open spec fn limbs_value(l0: u64, l1: u64, l2: u64, l3: u64) -> nat {
    (l0 as nat) + (l1 as nat) * limb_base() + (l2 as nat) * limb_base() * limb_base() + (l3 as nat)
        * limb_base() * limb_base() * limb_base()
}

/// An element of the field.
#[derive(Debug, Clone, Copy, PartialEq, Eq, Structural, Hash)]
pub struct Fr {
    l0: u64,
    l1: u64,
    l2: u64,
    l3: u64,
}

/// The sum of two representatives.
pub open spec fn add_mod(a: nat, b: nat) -> nat {
    (a + b) % modulus()
}

/// The difference of two representatives.
pub open spec fn sub_mod(a: nat, b: nat) -> nat {
    ((a + modulus() - b) % (modulus() as int)) as nat
}

/// The product of two representatives.
pub open spec fn mul_mod(a: nat, b: nat) -> nat {
    (a * b) % modulus()
}

/// The opposite of a representative.
pub open spec fn neg_mod(a: nat) -> nat {
    ((modulus() - a) % (modulus() as int)) as nat
}

/// Whether `x` represents the inverse of the element that `a` represents:
/// their product is one.
pub open spec fn is_inverse(x: nat, a: nat) -> bool {
    x < modulus() && (x * a) % modulus() == 1
}

/// The representative of the inverse, or zero for zero.
pub open spec fn inverse_or_zero(a: nat) -> nat {
    if a == 0 {
        0
    } else {
        choose|x: nat| is_inverse(x, a)
    }
}

/// An element has one inverse at most.
pub proof fn lemma_inverse_once(x: nat, y: nat, a: nat)
    requires
        is_inverse(x, a),
        is_inverse(y, a),
    ensures
        x == y,
{
    let p = modulus() as int;
    let xv = x as int;
    let yv = y as int;
    let av = a as int;
    assert(xv * (yv * av) == (xv * av) * yv) by (nonlinear_arith);
    vstd::arithmetic::div_mod::lemma_mul_mod_noop_right(xv, yv * av, p);
    vstd::arithmetic::div_mod::lemma_mul_mod_noop_left(xv * av, yv, p);
    assert((yv * av) % p == 1);
    assert((xv * av) % p == 1);
    assert((xv * 1) % p == (xv * (yv * av)) % p);
    assert((1 * yv) % p == ((xv * av) * yv) % p);
    vstd::arithmetic::div_mod::lemma_small_mod(x, modulus());
    vstd::arithmetic::div_mod::lemma_small_mod(y, modulus());
}

/// The product of `e` factors `b`.
pub open spec fn pow_mod(b: nat, e: nat) -> nat
    decreases e,
{
    if e == 0 {
        1
    } else {
        mul_mod(pow_mod(b, (e - 1) as nat), b)
    }
}

/// The character that writes the digit `d` in base sixteen.
pub open spec fn hex_char(d: nat) -> char
    recommends
        d < 16,
{
    if d == 0 {
        '0'
    } else if d == 1 {
        '1'
    } else if d == 2 {
        '2'
    } else if d == 3 {
        '3'
    } else if d == 4 {
        '4'
    } else if d == 5 {
        '5'
    } else if d == 6 {
        '6'
    } else if d == 7 {
        '7'
    } else if d == 8 {
        '8'
    } else if d == 9 {
        '9'
    } else if d == 10 {
        'a'
    } else if d == 11 {
        'b'
    } else if d == 12 {
        'c'
    } else if d == 13 {
        'd'
    } else if d == 14 {
        'e'
    } else {
        'f'
    }
}

/// The digit that `c` writes in base sixteen, in either case, if it writes
/// one.
pub open spec fn hex_value(c: char) -> Option<nat> {
    if c == '0' {
        Some(0)
    } else if c == '1' {
        Some(1)
    } else if c == '2' {
        Some(2)
    } else if c == '3' {
        Some(3)
    } else if c == '4' {
        Some(4)
    } else if c == '5' {
        Some(5)
    } else if c == '6' {
        Some(6)
    } else if c == '7' {
        Some(7)
    } else if c == '8' {
        Some(8)
    } else if c == '9' {
        Some(9)
    } else if c == 'a' || c == 'A' {
        Some(10)
    } else if c == 'b' || c == 'B' {
        Some(11)
    } else if c == 'c' || c == 'C' {
        Some(12)
    } else if c == 'd' || c == 'D' {
        Some(13)
    } else if c == 'e' || c == 'E' {
        Some(14)
    } else if c == 'f' || c == 'F' {
        Some(15)
    } else {
        None
    }
}

/// The hexadecimal notation of `v` without leading zeros; empty for zero.
pub open spec fn hex_digits(v: nat) -> Seq<char>
    decreases v,
{
    if v == 0 {
        Seq::<char>::empty()
    } else {
        hex_digits(v / 16).push(hex_char(v % 16))
    }
}

/// The `n` least significant hexadecimal digits of `v`, most significant
/// first.
pub open spec fn hex_fixed(v: nat, n: nat) -> Seq<char>
    decreases n,
{
    if n == 0 {
        Seq::<char>::empty()
    } else {
        hex_fixed(v / 16, (n - 1) as nat).push(hex_char(v % 16))
    }
}

/// Whether every character of `s` is a hexadecimal digit.
pub open spec fn all_hex(s: Seq<char>) -> bool {
    forall|i: int| 0 <= i < s.len() ==> (#[trigger] hex_value(s[i])) is Some
}

/// The number that the digits of `s` write in base sixteen.
pub open spec fn hex_number(s: Seq<char>) -> nat
    decreases s.len(),
{
    if s.len() == 0 {
        0
    } else {
        hex_number(s.drop_last()) * 16 + match hex_value(s.last()) {
            Some(d) => d,
            None => 0,
        }
    }
}

/// How an element of canonical representative `v` is written in a trace:
/// `0x0`, then the hexadecimal digits of `v` without leading zeros.
pub open spec fn render_hex(v: nat) -> Seq<char> {
    seq!['0', 'x', '0'] + hex_digits(v)
}

/// What a rendered element reads back as: the number written after `0x0`,
/// provided that only hexadecimal digits follow and that the number lies in
/// the field.
pub open spec fn parse_hex(s: Seq<char>) -> Option<nat> {
    if s.len() >= 3 && s[0] == '0' && s[1] == 'x' && s[2] == '0' && all_hex(
        s.subrange(3, s.len() as int),
    ) && hex_number(s.subrange(3, s.len() as int)) < modulus() {
        Some(hex_number(s.subrange(3, s.len() as int)))
    } else {
        None
    }
}

/// Which strings are decimal numerals: a non-empty run of decimal digits
/// that starts with a zero only if it is `"0"`.
pub open spec fn is_numeral(s: Seq<char>) -> bool {
    &&& s.len() > 0
    &&& crate::text::all_digits(s)
    &&& (s[0] != '0' || s.len() == 1)
}

/// The hexadecimal digits of a number are hexadecimal digits, do not start
/// with a zero, and write the number.
pub proof fn lemma_hex_digits(v: nat)
    ensures
        all_hex(hex_digits(v)),
        hex_number(hex_digits(v)) == v,
        v > 0 ==> hex_digits(v).len() > 0 && hex_digits(v)[0] != '0',
        v == 0 ==> hex_digits(v).len() == 0,
    decreases v,
{
    if v > 0 {
        lemma_hex_digits(v / 16);
        let s = hex_digits(v);
        assert(s.drop_last() =~= hex_digits(v / 16));
        assert(s.last() == hex_char(v % 16));
        assert forall|i: int| 0 <= i < s.len() implies (#[trigger] hex_value(s[i])) is Some by {
            if i < s.len() - 1 {
                assert(s[i] == hex_digits(v / 16)[i]);
            }
        }
        if v / 16 > 0 {
            assert(s[0] == hex_digits(v / 16)[0]);
        }
    }
}

/// Reading back a rendered element of the field gives the element.
pub proof fn lemma_hex_round_trip(v: nat)
    requires
        v < modulus(),
    ensures
        parse_hex(render_hex(v)) == Some(v),
{
    lemma_hex_digits(v);
    let s = render_hex(v);
    assert(s.subrange(3, s.len() as int) =~= hex_digits(v));
}

/// As many zeros as `n`.
pub open spec fn zeros(n: nat) -> Seq<char> {
    Seq::new(n, |i: int| '0')
}

proof fn lemma_hex_fixed(v: nat, n: nat)
    requires
        hex_digits(v).len() <= n,
    ensures
        hex_fixed(v, n) == zeros((n - hex_digits(v).len()) as nat) + hex_digits(v),
    decreases n,
{
    if n == 0 {
        assert(hex_fixed(v, n) =~= zeros(0) + hex_digits(v));
    } else {
        if v == 0 {
            lemma_hex_fixed(0, (n - 1) as nat);
            assert(hex_digits(0).len() == 0);
            assert(hex_fixed(v, n) =~= zeros(n) + hex_digits(v));
        } else {
            lemma_hex_fixed(v / 16, (n - 1) as nat);
            assert(hex_fixed(v, n) =~= zeros((n - hex_digits(v).len()) as nat) + hex_digits(v));
        }
    }
}

proof fn lemma_hex_len(v: nat, n: nat, bound: nat)
    requires
        v < bound,
        bound == pow16(n),
    ensures
        hex_digits(v).len() <= n,
    decreases n,
{
    if v > 0 {
        if n == 0 {
        } else {
            lemma_hex_len(v / 16, (n - 1) as nat, pow16((n - 1) as nat));
        }
    }
}

/// Sixteen to the power `n`.
pub open spec fn pow16(n: nat) -> nat
    decreases n,
{
    if n == 0 {
        1
    } else {
        16 * pow16((n - 1) as nat)
    }
}

proof fn lemma_pow16_64()
    ensures
        pow16(64) == limb_base() * limb_base() * limb_base() * limb_base(),
{
    assert(pow16(16) == limb_base()) by {
        reveal_with_fuel(pow16, 17);
    }
    lemma_pow16_add(16, 16);
    lemma_pow16_add(32, 16);
    lemma_pow16_add(48, 16);
    assert(pow16(32) == limb_base() * limb_base());
    assert(pow16(48) == limb_base() * limb_base() * limb_base());
}

proof fn lemma_pow16_add(a: nat, b: nat)
    ensures
        pow16(a + b) == pow16(a) * pow16(b),
    decreases b,
{
    if b == 0 {
        assert(pow16(a) * 1 == pow16(a));
    } else {
        lemma_pow16_add(a, (b - 1) as nat);
        assert(pow16(a + b) == 16 * pow16((a + b - 1) as nat));
        assert(pow16(a) * (16 * pow16((b - 1) as nat)) == 16 * (pow16(a) * pow16((b - 1) as nat)))
            by (nonlinear_arith);
    }
}

proof fn lemma_hex_number_monotone(s: Seq<char>, k: int)
    requires
        0 <= k <= s.len(),
    ensures
        hex_number(s.take(k)) <= hex_number(s),
    decreases s.len() - k,
{
    if k == s.len() {
        assert(s.take(k) =~= s);
    } else {
        lemma_hex_number_monotone(s, k + 1);
        assert(s.take(k + 1).drop_last() =~= s.take(k));
    }
}

fn hex_digit_from(c: char) -> (r: Option<u64>)
    ensures
        match r {
            Some(d) => hex_value(c) == Some(d as nat) && d < 16,
            None => hex_value(c) is None,
        },
{
    if c == '0' {
        Some(0)
    } else if c == '1' {
        Some(1)
    } else if c == '2' {
        Some(2)
    } else if c == '3' {
        Some(3)
    } else if c == '4' {
        Some(4)
    } else if c == '5' {
        Some(5)
    } else if c == '6' {
        Some(6)
    } else if c == '7' {
        Some(7)
    } else if c == '8' {
        Some(8)
    } else if c == '9' {
        Some(9)
    } else if c == 'a' || c == 'A' {
        Some(10)
    } else if c == 'b' || c == 'B' {
        Some(11)
    } else if c == 'c' || c == 'C' {
        Some(12)
    } else if c == 'd' || c == 'D' {
        Some(13)
    } else if c == 'e' || c == 'E' {
        Some(14)
    } else if c == 'f' || c == 'F' {
        Some(15)
    } else {
        None
    }
}

/// Whether the number that the limbs write lies in the field.
fn limbs_in_field(l0: u64, l1: u64, l2: u64, l3: u64) -> (r: bool)
    ensures
        r == (limbs_value(l0, l1, l2, l3) < modulus()),
{
    let m0: u64 = 0x43e1f593f0000001;
    let m1: u64 = 0x2833e84879b97091;
    let m2: u64 = 0xb85045b68181585d;
    let m3: u64 = 0x30644e72e131a029;
    assert(limbs_value(m0, m1, m2, m3) == modulus());
    if l3 != m3 {
        l3 < m3
    } else if l2 != m2 {
        l2 < m2
    } else if l1 != m1 {
        l1 < m1
    } else {
        l0 < m0
    }
}

/// Sixteen times the number that the limbs write, plus `d`: the four low
/// limbs of it, and what overflows them.
fn limbs_shift(l0: u64, l1: u64, l2: u64, l3: u64, d: u64) -> (r: (u64, u64, u64, u64, u64))
    requires
        d < 16,
    ensures
        limbs_value(r.0, r.1, r.2, r.3) + (r.4 as nat) * limb_base() * limb_base() * limb_base()
            * limb_base() == limbs_value(l0, l1, l2, l3) * 16 + d,
{
    let b: u128 = 0x1_0000_0000_0000_0000;
    let t0: u128 = (l0 as u128) * 16 + (d as u128);
    let n0: u64 = (t0 % b) as u64;
    let t1: u128 = (l1 as u128) * 16 + t0 / b;
    let n1: u64 = (t1 % b) as u64;
    let t2: u128 = (l2 as u128) * 16 + t1 / b;
    let n2: u64 = (t2 % b) as u64;
    let t3: u128 = (l3 as u128) * 16 + t2 / b;
    let n3: u64 = (t3 % b) as u64;
    let c: u64 = (t3 / b) as u64;
    (n0, n1, n2, n3, c)
}

/// The sum of two elements.
///
/// Trusted: the body converts both limbs to `pairing_ce::bn256::Fr` with
/// `PrimeField::from_repr`, calls `Field::add_assign`, and reads the
/// canonical limbs back with `PrimeField::into_repr`. The contract claims
/// that this is addition modulo the order of the field.
#[verifier::external_body]
fn field_add(a: Fr, b: Fr) -> (r: Fr)
    ensures
        r.value() == (a.value() + b.value()) % modulus(),
{
    let mut x = pairing_ce::bn256::Fr::from_repr(
        pairing_ce::bn256::FrRepr([a.l0, a.l1, a.l2, a.l3]),
    ).unwrap();
    let y = pairing_ce::bn256::Fr::from_repr(
        pairing_ce::bn256::FrRepr([b.l0, b.l1, b.l2, b.l3]),
    ).unwrap();
    x.add_assign(&y);
    let l = x.into_repr().0;
    Fr { l0: l[0], l1: l[1], l2: l[2], l3: l[3] }
}

/// The difference of two elements.
///
/// Trusted: as for the sum, with `Field::sub_assign`. The contract claims
/// that this is subtraction modulo the order of the field.
#[verifier::external_body]
fn field_sub(a: Fr, b: Fr) -> (r: Fr)
    ensures
        r.value() == (a.value() + modulus() - b.value()) % (modulus() as int),
{
    let mut x = pairing_ce::bn256::Fr::from_repr(
        pairing_ce::bn256::FrRepr([a.l0, a.l1, a.l2, a.l3]),
    ).unwrap();
    let y = pairing_ce::bn256::Fr::from_repr(
        pairing_ce::bn256::FrRepr([b.l0, b.l1, b.l2, b.l3]),
    ).unwrap();
    x.sub_assign(&y);
    let l = x.into_repr().0;
    Fr { l0: l[0], l1: l[1], l2: l[2], l3: l[3] }
}

/// The product of two elements.
///
/// Trusted: as for the sum, with `Field::mul_assign`. The contract claims
/// that this is multiplication modulo the order of the field.
#[verifier::external_body]
fn field_mul(a: Fr, b: Fr) -> (r: Fr)
    ensures
        r.value() == (a.value() * b.value()) % modulus(),
{
    let mut x = pairing_ce::bn256::Fr::from_repr(
        pairing_ce::bn256::FrRepr([a.l0, a.l1, a.l2, a.l3]),
    ).unwrap();
    let y = pairing_ce::bn256::Fr::from_repr(
        pairing_ce::bn256::FrRepr([b.l0, b.l1, b.l2, b.l3]),
    ).unwrap();
    x.mul_assign(&y);
    let l = x.into_repr().0;
    Fr { l0: l[0], l1: l[1], l2: l[2], l3: l[3] }
}

/// The inverse of an element.
///
/// Trusted: the body calls `Field::inverse` of `pairing_ce::bn256::Fr`. The
/// contract claims that zero has no inverse, and that the product of what
/// is returned for any other element with the element is one.
#[verifier::external_body]
fn field_inverse(a: Fr) -> (r: Option<Fr>)
    ensures
        a.value() == 0 <==> r is None,
        r matches Some(x) ==> (x.value() * a.value()) % modulus() == 1,
{
    let x = pairing_ce::bn256::Fr::from_repr(
        pairing_ce::bn256::FrRepr([a.l0, a.l1, a.l2, a.l3]),
    ).unwrap();
    match x.inverse() {
        Some(y) => {
            let l = y.into_repr().0;
            Some(Fr { l0: l[0], l1: l[1], l2: l[2], l3: l[3] })
        },
        None => None,
    }
}

/// The element that a decimal numeral writes.
///
/// Trusted: the body calls `PrimeField::from_str` of
/// `pairing_ce::bn256::Fr`. The contract claims that it accepts exactly the
/// decimal numerals without superfluous leading zero, and gives the number
/// they write reduced modulo the order of the field.
#[verifier::external_body]
fn field_from_decimal(s: &str) -> (r: Option<Fr>)
    ensures
        is_numeral(s@) <==> r is Some,
        r matches Some(x) ==> x.value() == crate::text::decimal_value(s@) % modulus(),
{
    match pairing_ce::bn256::Fr::from_str(s) {
        Some(y) => {
            let l = y.into_repr().0;
            Some(Fr { l0: l[0], l1: l[1], l2: l[2], l3: l[3] })
        },
        None => None,
    }
}

/// The canonical representative in hexadecimal.
///
/// Trusted: the body formats `PrimeField::into_repr` of
/// `pairing_ce::bn256::Fr` with its `Display`. The contract claims that this
/// writes `0x` and then the sixty-four hexadecimal digits of the
/// representative, most significant first, in lower case.
#[verifier::external_body]
fn field_repr_hex(a: Fr) -> (r: String)
    ensures
        r@ == seq!['0', 'x'] + hex_fixed(a.value(), 64),
{
    let x = pairing_ce::bn256::Fr::from_repr(
        pairing_ce::bn256::FrRepr([a.l0, a.l1, a.l2, a.l3]),
    ).unwrap();
    x.into_repr().to_string()
}

impl Fr {
    /// Every element is held as its canonical representative.
    #[verifier::type_invariant]
    pub closed spec fn wf(self) -> bool {
        limbs_value(self.l0, self.l1, self.l2, self.l3) < modulus()
    }

    /// The canonical representative of the element.
    pub closed spec fn value(self) -> nat {
        limbs_value(self.l0, self.l1, self.l2, self.l3)
    }

    /// Elements with the same representative are the same.
    pub proof fn lemma_value_injective(a: Fr, b: Fr)
        requires
            a.value() == b.value(),
        ensures
            a == b,
    {
        let base = limb_base() as int;
        let x1 = (a.l1 as int) + base * ((a.l2 as int) + base * (a.l3 as int));
        let y1 = (b.l1 as int) + base * ((b.l2 as int) + base * (b.l3 as int));
        let x2 = (a.l2 as int) + base * (a.l3 as int);
        let y2 = (b.l2 as int) + base * (b.l3 as int);
        assert(a.value() == (a.l0 as int) + base * x1) by (nonlinear_arith)
            requires
                a.value() == (a.l0 as int) + (a.l1 as int) * base + (a.l2 as int) * base * base
                    + (a.l3 as int) * base * base * base,
                x1 == (a.l1 as int) + base * ((a.l2 as int) + base * (a.l3 as int)),
        ;
        assert(b.value() == (b.l0 as int) + base * y1) by (nonlinear_arith)
            requires
                b.value() == (b.l0 as int) + (b.l1 as int) * base + (b.l2 as int) * base * base
                    + (b.l3 as int) * base * base * base,
                y1 == (b.l1 as int) + base * ((b.l2 as int) + base * (b.l3 as int)),
        ;
        assert(a.l0 == b.l0 && x1 == y1) by (nonlinear_arith)
            requires
                (a.l0 as int) + base * x1 == (b.l0 as int) + base * y1,
                0 <= a.l0 < base,
                0 <= b.l0 < base,
                base > 0,
        ;
        assert(a.l1 == b.l1 && x2 == y2) by (nonlinear_arith)
            requires
                (a.l1 as int) + base * x2 == (b.l1 as int) + base * y2,
                0 <= a.l1 < base,
                0 <= b.l1 < base,
                base > 0,
        ;
        assert(a.l2 == b.l2 && a.l3 == b.l3) by (nonlinear_arith)
            requires
                (a.l2 as int) + base * (a.l3 as int) == (b.l2 as int) + base * (b.l3 as int),
                0 <= a.l2 < base,
                0 <= b.l2 < base,
                base > 0,
        ;
    }

    /// The representative of an element is less than the order of the field.
    pub fn in_field(&self)
        ensures
            self.value() < modulus(),
    {
        proof {
            use_type_invariant(self);
        }
    }

    /// The representative of an element is less than the order of the field.
    pub proof fn in_field_proof(self)
        requires
            self.wf(),
        ensures
            self.value() < modulus(),
    {
    }

    /// The additive identity.
    pub fn zero() -> (r: Fr)
        ensures
            r.value() == 0,
    {
        Fr { l0: 0, l1: 0, l2: 0, l3: 0 }
    }

    /// The multiplicative identity.
    pub fn one() -> (r: Fr)
        ensures
            r.value() == 1,
    {
        Fr { l0: 1, l1: 0, l2: 0, l3: 0 }
    }

    /// The element whose representative is `x`.
    pub fn from_u64(x: u64) -> (r: Fr)
        ensures
            r.value() == x,
    {
        Fr { l0: x, l1: 0, l2: 0, l3: 0 }
    }

    /// The element whose representative the limbs write, least significant
    /// first, if that number lies in the field.
    pub fn from_limbs(l0: u64, l1: u64, l2: u64, l3: u64) -> (r: Option<Fr>)
        ensures
            match r {
                Some(x) => x.value() == limbs_value(l0, l1, l2, l3) && x.value() < modulus(),
                None => limbs_value(l0, l1, l2, l3) >= modulus(),
            },
    {
        if limbs_in_field(l0, l1, l2, l3) {
            Some(Fr { l0, l1, l2, l3 })
        } else {
            None
        }
    }

    /// The representative, when it fits in 64 bits.
    pub fn to_u64(&self) -> (r: Option<u64>)
        ensures
            match r {
                Some(x) => self.value() == x,
                None => self.value() > u64::MAX,
            },
    {
        if self.l1 == 0 && self.l2 == 0 && self.l3 == 0 {
            Some(self.l0)
        } else {
            None
        }
    }

    /// Whether the element is zero.
    pub fn is_zero(&self) -> (r: bool)
        ensures
            r == (self.value() == 0),
    {
        self.l0 == 0 && self.l1 == 0 && self.l2 == 0 && self.l3 == 0
    }

    /// Whether the element is one.
    pub fn is_one(&self) -> (r: bool)
        ensures
            r == (self.value() == 1),
    {
        self.l0 == 1 && self.l1 == 0 && self.l2 == 0 && self.l3 == 0
    }

    /// Whether the representative of `self` is less than that of `other`:
    /// the order of the limbs read from the most significant down.
    pub fn lt(&self, other: &Fr) -> (r: bool)
        ensures
            r == (self.value() < other.value()),
    {
        if self.l3 != other.l3 {
            self.l3 < other.l3
        } else if self.l2 != other.l2 {
            self.l2 < other.l2
        } else if self.l1 != other.l1 {
            self.l1 < other.l1
        } else {
            self.l0 < other.l0
        }
    }

    /// `self + other`.
    pub fn add(&self, other: &Fr) -> (r: Fr)
        ensures
            r.value() == add_mod(self.value(), other.value()),
    {
        field_add(*self, *other)
    }

    /// `self - other`.
    pub fn sub(&self, other: &Fr) -> (r: Fr)
        ensures
            r.value() == sub_mod(self.value(), other.value()),
    {
        proof {
            use_type_invariant(other);
        }
        field_sub(*self, *other)
    }

    /// `self * other`.
    pub fn mul(&self, other: &Fr) -> (r: Fr)
        ensures
            r.value() == mul_mod(self.value(), other.value()),
    {
        field_mul(*self, *other)
    }

    /// `-self`.
    pub fn neg(&self) -> (r: Fr)
        ensures
            r.value() == neg_mod(self.value()),
    {
        proof {
            use_type_invariant(self);
        }
        let r = field_sub(Fr::zero(), *self);
        r
    }

    /// The multiplicative inverse; none for zero.
    pub fn inverse(&self) -> (r: Option<Fr>)
        ensures
            self.value() == 0 <==> r is None,
            r matches Some(x) ==> is_inverse(x.value(), self.value()) && x.value()
                == inverse_or_zero(self.value()),
    {
        let r = field_inverse(*self);
        proof {
            match r {
                Some(x) => {
                    use_type_invariant(&x);
                    x.in_field_proof();
                    assert(is_inverse(x.value(), self.value()));
                    lemma_inverse_once(x.value(), inverse_or_zero(self.value()), self.value());
                },
                None => {},
            }
        }
        r
    }

    /// The multiplicative inverse, or zero for zero.
    pub fn inverse_or_zero(&self) -> (r: Fr)
        ensures
            r.value() == inverse_or_zero(self.value()),
    {
        match self.inverse() {
            Some(x) => x,
            None => Fr::zero(),
        }
    }

    /// The element that the decimal numeral `s` writes: the number it writes,
    /// reduced modulo the order of the field. Anything but a run of digits
    /// without superfluous leading zero is refused.
    pub fn from_str(s: &str) -> (r: Option<Fr>)
        ensures
            is_numeral(s@) <==> r is Some,
            r matches Some(x) ==> x.value() == crate::text::decimal_value(s@) % modulus(),
    {
        field_from_decimal(s)
    }

    /// The element as traces hold it: `0x0` followed by the hexadecimal
    /// digits of its representative, without leading zeros.
    pub fn to_hex(&self) -> (r: String)
        ensures
            r@ == render_hex(self.value()),
    {
        proof {
            use_type_invariant(self);
            lemma_pow16_64();
            lemma_hex_len(self.value(), 64, pow16(64));
            lemma_hex_fixed(self.value(), 64);
            lemma_hex_digits(self.value());
        }
        let full = field_repr_hex(*self);
        let chars = to_chars(full.as_str());
        let ghost digits = hex_digits(self.value());
        let ghost pad = (64 - digits.len()) as nat;
        assert(chars@ =~= seq!['0', 'x'] + zeros(pad) + digits);
        let mut k: usize = 2;
        while k < chars.len() && chars[k] == '0'
            invariant
                2 <= k <= chars.len(),
                chars@ == seq!['0', 'x'] + zeros(pad) + digits,
                digits.len() + pad == 64,
                k <= 2 + pad,
                digits.len() > 0 ==> digits[0] != '0',
            decreases chars.len() - k,
        {
            proof {
                if k == 2 + pad {
                    assert(chars@[k as int] == digits[0]);
                }
            }
            k = k + 1;
        }
        proof {
            if k < 2 + pad {
                assert(chars@[k as int] == zeros(pad)[k - 2]);
            }
        }
        let rest = from_chars(&chars, k, chars.len());
        let mut r = String::new();
        push_char(&mut r, '0');
        push_char(&mut r, 'x');
        push_char(&mut r, '0');
        r.append(rest.as_str());
        assert(rest@ =~= digits);
        assert(r@ =~= render_hex(self.value()));
        r
    }

    /// Reads an element back from the form that [`Fr::to_hex`] writes.
    pub fn from_hex(s: &str) -> (r: Option<Fr>)
        ensures
            match r {
                Some(x) => parse_hex(s@) == Some(x.value()),
                None => parse_hex(s@) is None,
            },
    {
        let chars = to_chars(s);
        if chars.len() < 3 || chars[0] != '0' || chars[1] != 'x' || chars[2] != '0' {
            return None;
        }
        let ghost body = s@.subrange(3, s@.len() as int);
        let mut l0: u64 = 0;
        let mut l1: u64 = 0;
        let mut l2: u64 = 0;
        let mut l3: u64 = 0;
        let mut i: usize = 3;
        while i < chars.len()
            invariant
                3 <= i <= chars.len(),
                chars@ == s@,
                s@[0] == '0' && s@[1] == 'x' && s@[2] == '0',
                body == s@.subrange(3, s@.len() as int),
                all_hex(body.take(i - 3)),
                limbs_value(l0, l1, l2, l3) == hex_number(body.take(i - 3)),
            decreases chars.len() - i,
        {
            let ghost prefix = body.take(i - 3 + 1);
            assert(prefix.drop_last() =~= body.take(i - 3));
            assert(prefix.last() == chars@[i as int]);
            match hex_digit_from(chars[i]) {
                None => {
                    assert(hex_value(body[i - 3]) is None);
                    return None;
                },
                Some(d) => {
                    let (n0, n1, n2, n3, c) = limbs_shift(l0, l1, l2, l3, d);
                    if c != 0 {
                        proof {
                            lemma_hex_number_monotone(body, i - 3 + 1);
                            assert(limb_base() * limb_base() * limb_base() * limb_base()
                                > modulus());
                            assert((c as nat) * limb_base() * limb_base() * limb_base()
                                * limb_base() >= limb_base() * limb_base() * limb_base()
                                * limb_base()) by (nonlinear_arith)
                                requires
                                    c >= 1,
                            ;
                        }
                        return None;
                    }
                    l0 = n0;
                    l1 = n1;
                    l2 = n2;
                    l3 = n3;
                    assert forall|j: int| 0 <= j < prefix.len() implies (#[trigger] hex_value(
                        prefix[j],
                    )) is Some by {
                        if j < prefix.len() - 1 {
                            assert(prefix[j] == body.take(i - 3)[j]);
                        }
                    }
                },
            }
            i = i + 1;
        }
        assert(body.take(i - 3) =~= body);
        Fr::from_limbs(l0, l1, l2, l3)
    }
}

} // verus!
