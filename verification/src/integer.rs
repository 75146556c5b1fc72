//! Integers of any size, as the constants of a program are.
//!
//! An integer is held as a sign and the digits of its magnitude in base
//! 2^32, least significant first. Sums and products are computed by the
//! `num_bigint` crate; what this module states of it is marked as trusted.

use crate::field::{limb_base, limbs_value, modulus, Fr};
use vstd::prelude::*;

verus! {

/// Two to the power 32: the base of the digits.
pub open spec fn digit_base() -> nat {
    0x1_0000_0000nat
}

/// The number that the digits `d[i..]` write, least significant first.
pub open spec fn digits_value(d: Seq<u32>, i: int) -> nat
    decreases d.len() - i,
{
    if i < 0 || i >= d.len() {
        0
    } else {
        (d[i] as nat) + digit_base() * digits_value(d, i + 1)
    }
}

/// An integer of any size.
#[derive(Debug)]
pub struct Integer {
    negative: bool,
    digits: Vec<u32>,
}

proof fn lemma_tail_positive(d: Seq<u32>, i: int)
    requires
        0 <= i < d.len(),
        d[d.len() - 1] != 0,
    ensures
        digits_value(d, i) >= 1,
    decreases d.len() - i,
{
    if i < d.len() - 1 {
        lemma_tail_positive(d, i + 1);
        assert(digit_base() * digits_value(d, i + 1) >= 1) by (nonlinear_arith)
            requires
                digits_value(d, i + 1) >= 1,
                digit_base() >= 1,
        ;
    }
}

proof fn lemma_same_digits(a: Seq<u32>, b: Seq<u32>, i: int)
    requires
        0 <= i,
        a.len() == b.len(),
        forall|j: int| i <= j < a.len() ==> a[j] == b[j],
    ensures
        digits_value(a, i) == digits_value(b, i),
    decreases a.len() - i,
{
    if i < a.len() {
        lemma_same_digits(a, b, i + 1);
    }
}

proof fn lemma_digits_injective(a: Seq<u32>, b: Seq<u32>, i: int)
    requires
        0 <= i <= a.len(),
        0 <= i <= b.len(),
        a.len() > 0 ==> a[a.len() - 1] != 0,
        b.len() > 0 ==> b[b.len() - 1] != 0,
        digits_value(a, i) == digits_value(b, i),
    ensures
        a.len() == b.len(),
        forall|j: int| i <= j < a.len() ==> a[j] == b[j],
    decreases a.len() - i,
{
    if i == a.len() {
        if i < b.len() {
            lemma_tail_positive(b, i);
        }
    } else if i == b.len() {
        lemma_tail_positive(a, i);
    } else {
        let x = digits_value(a, i + 1);
        let y = digits_value(b, i + 1);
        assert(a[i] == b[i] && x == y) by (nonlinear_arith)
            requires
                (a[i] as nat) + digit_base() * x == (b[i] as nat) + digit_base() * y,
                (a[i] as nat) < digit_base(),
                (b[i] as nat) < digit_base(),
        ;
        lemma_digits_injective(a, b, i + 1);
    }
}

/// The sum of two integers.
///
/// Trusted: the body builds both operands with `BigInt::from_slice`, adds
/// them with the `+` of `num_bigint::BigInt`, and reads sign and digits back
/// with `BigInt::to_u32_digits`. The contract claims that this is addition,
/// and that the digits read back end in no zero.
#[verifier::external_body]
fn bigint_add(a: &Integer, b: &Integer) -> (r: Integer)
    ensures
        r@ == a@ + b@,
{
    let x = num_bigint::BigInt::from_slice(
        if a.negative { num_bigint::Sign::Minus } else { num_bigint::Sign::Plus },
        &a.digits,
    );
    let y = num_bigint::BigInt::from_slice(
        if b.negative { num_bigint::Sign::Minus } else { num_bigint::Sign::Plus },
        &b.digits,
    );
    let (sign, digits) = (x + y).to_u32_digits();
    Integer { negative: sign == num_bigint::Sign::Minus, digits }
}

/// The product of two integers.
///
/// Trusted: as for the sum, with the `*` of `num_bigint::BigInt`. The
/// contract claims that this is multiplication.
#[verifier::external_body]
fn bigint_mul(a: &Integer, b: &Integer) -> (r: Integer)
    ensures
        r@ == a@ * b@,
{
    let x = num_bigint::BigInt::from_slice(
        if a.negative { num_bigint::Sign::Minus } else { num_bigint::Sign::Plus },
        &a.digits,
    );
    let y = num_bigint::BigInt::from_slice(
        if b.negative { num_bigint::Sign::Minus } else { num_bigint::Sign::Plus },
        &b.digits,
    );
    let (sign, digits) = (x * y).to_u32_digits();
    Integer { negative: sign == num_bigint::Sign::Minus, digits }
}

/// The characters of `s` but for the underscores.
pub open spec fn without_underscores(s: Seq<char>) -> Seq<char> {
    s.filter(|c: char| c != '_')
}

/// The integer that `s` writes in base ten, if it writes one: an optional
/// sign, then a digit, then digits and underscores, which do not count.
pub open spec fn integer_of(s: Seq<char>) -> Option<int> {
    let negative = s.len() > 0 && s[0] == '-';
    let body = if s.len() > 0 && (s[0] == '-' || s[0] == '+') {
        s.drop_first()
    } else {
        s
    };
    if body.len() > 0 && crate::text::digit_value(body[0]) is Some && forall|i: int|
        0 <= i < body.len() ==> (#[trigger] crate::text::digit_value(body[i])) is Some || body[i]
            == '_' {
        let n = crate::text::decimal_value(without_underscores(body)) as int;
        Some(
            if negative {
                -n
            } else {
                n
            },
        )
    } else {
        None
    }
}

/// The integer that a numeral writes.
///
/// Trusted: the body parses with the `FromStr` of `num_bigint::BigInt`,
/// which reads in base ten, and reads sign and digits back with
/// `BigInt::to_u32_digits`. The contract claims what the source of the
/// parser shows: one sign is accepted, the first character after it must be
/// a digit, underscores among the digits are passed over, and any other
/// character is refused.
#[verifier::external_body]
fn bigint_parse(s: &str) -> (r: Option<Integer>)
    ensures
        match r {
            Some(x) => integer_of(s@) == Some(x@),
            None => integer_of(s@) is None,
        },
{
    match s.parse::<num_bigint::BigInt>() {
        Ok(x) => {
            let (sign, digits) = x.to_u32_digits();
            Some(Integer { negative: sign == num_bigint::Sign::Minus, digits })
        },
        Err(_) => None,
    }
}

impl View for Integer {
    type V = int;

    closed spec fn view(&self) -> int {
        if self.negative {
            -(digits_value(self.digits@, 0) as int)
        } else {
            digits_value(self.digits@, 0) as int
        }
    }
}

impl Clone for Integer {
    fn clone(&self) -> (r: Self)
        ensures
            r@ == self@,
    {
        proof {
            use_type_invariant(self);
        }
        let mut digits: Vec<u32> = Vec::new();
        let mut i: usize = 0;
        while i < self.digits.len()
            invariant
                i <= self.digits.len(),
                digits@ == self.digits@.take(i as int),
            decreases self.digits.len() - i,
        {
            digits.push(self.digits[i]);
            i = i + 1;
        }
        assert(digits@ =~= self.digits@);
        Integer { negative: self.negative, digits }
    }
}

impl Integer {
    /// The digits end in no zero, and zero has no sign.
    #[verifier::type_invariant]
    pub closed spec fn wf(self) -> bool {
        &&& self.digits@.len() > 0 ==> self.digits@[self.digits@.len() - 1] != 0
        &&& self.negative ==> self.digits@.len() > 0
    }

    /// The integer that the numeral `s` writes in base ten, if it writes
    /// one.
    pub fn parse(s: &str) -> (r: Option<Integer>)
        ensures
            match r {
                Some(x) => integer_of(s@) == Some(x@),
                None => integer_of(s@) is None,
            },
    {
        bigint_parse(s)
    }

    /// The integer that has the given sign and magnitude; the digits of the
    /// magnitude are in base 2^32, least significant first.
    pub fn from_parts(negative: bool, digits: Vec<u32>) -> (r: Integer)
        ensures
            r@ == if negative {
                -(digits_value(digits@, 0) as int)
            } else {
                digits_value(digits@, 0) as int
            },
    {
        let mut digits = digits;
        let ghost full = digits@;
        while digits.len() > 0 && digits[digits.len() - 1] == 0
            invariant
                digits@.len() <= full.len(),
                digits@ == full.take(digits@.len() as int),
                digits_value(digits@, 0) == digits_value(full, 0),
            decreases digits.len(),
        {
            let ghost before = digits@;
            digits.pop();
            proof {
                assert(digits@ =~= full.take(digits@.len() as int));
                Self::lemma_drop_zero(before, 0);
            }
        }
        let negative = negative && digits.len() > 0;
        Integer { negative, digits }
    }

    proof fn lemma_drop_zero(d: Seq<u32>, i: int)
        requires
            0 <= i < d.len(),
            d[d.len() - 1] == 0,
        ensures
            digits_value(d.drop_last(), i) == digits_value(d, i),
        decreases d.len() - i,
    {
        if i < d.len() - 1 {
            Self::lemma_drop_zero(d, i + 1);
            assert(d.drop_last()[i] == d[i]);
        } else {
            assert(digits_value(d, i + 1) == 0);
            assert(digits_value(d.drop_last(), i) == 0);
            assert(digit_base() * 0 == 0);
        }
    }

    /// The sign and the digits of the magnitude, in base 2^32, least
    /// significant first and without a zero at the end.
    pub fn to_parts(&self) -> (r: (bool, Vec<u32>))
        ensures
            self@ == if r.0 {
                -(digits_value(r.1@, 0) as int)
            } else {
                digits_value(r.1@, 0) as int
            },
    {
        let c = self.clone();
        proof {
            use_type_invariant(self);
            use_type_invariant(&c);
            if c.negative != self.negative {
                if c.digits@.len() > 0 {
                    lemma_tail_positive(c.digits@, 0);
                }
                if self.digits@.len() > 0 {
                    lemma_tail_positive(self.digits@, 0);
                }
            }
        }
        (self.negative, c.digits)
    }

    /// The integer `x`.
    pub fn from_u64(x: u64) -> (r: Integer)
        ensures
            r@ == x,
    {
        let lo: u32 = (x % 0x1_0000_0000) as u32;
        let hi: u32 = (x / 0x1_0000_0000) as u32;
        let mut digits: Vec<u32> = Vec::new();
        if hi != 0 {
            digits.push(lo);
            digits.push(hi);
        } else if lo != 0 {
            digits.push(lo);
        }
        proof {
            reveal_with_fuel(digits_value, 3);
        }
        Integer { negative: false, digits }
    }

    /// The integer `x`.
    pub fn from_usize(x: usize) -> (r: Integer)
        ensures
            r@ == x,
    {
        Self::from_u64(x as u64)
    }

    /// The integer `x`.
    pub fn from_i64(x: i64) -> (r: Integer)
        ensures
            r@ == x,
    {
        if x >= 0 {
            Self::from_u64(x as u64)
        } else {
            let m: u64 = ((-(x + 1)) as u64) + 1;
            let p = Self::from_u64(m);
            p.neg()
        }
    }

    /// Whether the integer is zero.
    pub fn is_zero(&self) -> (r: bool)
        ensures
            r == (self@ == 0),
    {
        proof {
            use_type_invariant(self);
            if self.digits@.len() > 0 {
                lemma_tail_positive(self.digits@, 0);
            }
        }
        self.digits.len() == 0
    }

    /// Whether the integer is one.
    pub fn is_one(&self) -> (r: bool)
        ensures
            r == (self@ == 1),
    {
        proof {
            use_type_invariant(self);
            reveal_with_fuel(digits_value, 3);
            if self.digits@.len() > 1 {
                lemma_tail_positive(self.digits@, 1);
            }
        }
        !self.negative && self.digits.len() == 1 && self.digits[0] == 1
    }

    /// Whether the integer is less than zero.
    pub fn is_negative(&self) -> (r: bool)
        ensures
            r == (self@ < 0),
    {
        proof {
            use_type_invariant(self);
            if self.digits@.len() > 0 {
                lemma_tail_positive(self.digits@, 0);
            }
        }
        self.negative
    }

    /// `-self`.
    pub fn neg(&self) -> (r: Integer)
        ensures
            r@ == -self@,
    {
        proof {
            use_type_invariant(self);
        }
        let c = self.clone();
        proof {
            use_type_invariant(&c);
            if c.digits@.len() > 0 {
                lemma_tail_positive(c.digits@, 0);
            }
            if self.digits@.len() > 0 {
                lemma_tail_positive(self.digits@, 0);
            }
        }
        let negative = !self.negative && c.digits.len() > 0;
        Integer { negative, digits: c.digits }
    }

    /// `self + other`.
    pub fn add(&self, other: &Integer) -> (r: Integer)
        ensures
            r@ == self@ + other@,
    {
        bigint_add(self, other)
    }

    /// `self - other`.
    pub fn sub(&self, other: &Integer) -> (r: Integer)
        ensures
            r@ == self@ - other@,
    {
        let n = other.neg();
        bigint_add(self, &n)
    }

    /// `self * other`.
    pub fn mul(&self, other: &Integer) -> (r: Integer)
        ensures
            r@ == self@ * other@,
    {
        bigint_mul(self, other)
    }

    /// Whether two integers are the same number.
    pub fn equals(&self, other: &Integer) -> (r: bool)
        ensures
            r == (self@ == other@),
    {
        proof {
            use_type_invariant(self);
            use_type_invariant(other);
            if self.digits@.len() > 0 {
                lemma_tail_positive(self.digits@, 0);
            }
            if other.digits@.len() > 0 {
                lemma_tail_positive(other.digits@, 0);
            }
        }
        if self.negative != other.negative || self.digits.len() != other.digits.len() {
            proof {
                if digits_value(self.digits@, 0) == digits_value(other.digits@, 0) {
                    lemma_digits_injective(self.digits@, other.digits@, 0);
                }
            }
            return false;
        }
        let mut i: usize = 0;
        while i < self.digits.len()
            invariant
                i <= self.digits.len(),
                self.digits.len() == other.digits.len(),
                forall|j: int| 0 <= j < i ==> self.digits@[j] == other.digits@[j],
                self.negative == other.negative,
                self.wf(),
                other.wf(),
            decreases self.digits.len() - i,
        {
            if self.digits[i] != other.digits[i] {
                proof {
                    if digits_value(self.digits@, 0) == digits_value(other.digits@, 0) {
                        lemma_digits_injective(self.digits@, other.digits@, 0);
                    }
                }
                return false;
            }
            i = i + 1;
        }
        proof {
            lemma_same_digits(self.digits@, other.digits@, 0);
        }
        true
    }

    /// The magnitude, when it fits in 64 bits.
    fn magnitude(&self) -> (r: Option<u64>)
        ensures
            match r {
                Some(m) => digits_value(self.digits@, 0) == m,
                None => digits_value(self.digits@, 0) > u64::MAX,
            },
    {
        proof {
            use_type_invariant(self);
            reveal_with_fuel(digits_value, 4);
        }
        let n = self.digits.len();
        if n == 0 {
            Some(0)
        } else if n == 1 {
            Some(self.digits[0] as u64)
        } else if n == 2 {
            Some((self.digits[0] as u64) + (self.digits[1] as u64) * 0x1_0000_0000)
        } else {
            proof {
                lemma_tail_positive(self.digits@, 2);
                let v2 = digits_value(self.digits@, 2);
                let v1 = digits_value(self.digits@, 1);
                assert(v1 >= digit_base() * v2);
                assert(digit_base() * v2 >= digit_base()) by (nonlinear_arith)
                    requires
                        v2 >= 1,
                ;
                assert(digit_base() * v1 >= digit_base() * digit_base()) by (nonlinear_arith)
                    requires
                        v1 >= digit_base(),
                ;
            }
            None
        }
    }

    /// The integer as a `usize`, when it is one.
    pub fn to_usize(&self) -> (r: Option<usize>)
        ensures
            match r {
                Some(x) => self@ == x,
                None => self@ < 0 || self@ > usize::MAX,
            },
    {
        let neg = self.is_negative();
        if neg {
            return None;
        }
        match self.magnitude() {
            Some(m) => if m <= usize::MAX as u64 {
                Some(m as usize)
            } else {
                None
            },
            None => None,
        }
    }

    /// The integer as an `isize`, when it is one.
    pub fn to_isize(&self) -> (r: Option<isize>)
        ensures
            match r {
                Some(x) => self@ == x,
                None => self@ < isize::MIN || self@ > isize::MAX,
            },
    {
        let neg = self.is_negative();
        match self.magnitude() {
            Some(m) => {
                if !neg {
                    if m <= isize::MAX as u64 {
                        Some(m as isize)
                    } else {
                        None
                    }
                } else {
                    if m <= isize::MAX as u64 {
                        Some(-(m as isize))
                    } else if m == (isize::MAX as u64) + 1 {
                        Some(isize::MIN)
                    } else {
                        None
                    }
                }
            },
            None => None,
        }
    }

    fn digit(&self, i: usize) -> (r: u64)
        ensures
            r == if i < self.digits@.len() {
                self.digits@[i as int] as u64
            } else {
                0u64
            },
            r < 0x1_0000_0000,
    {
        if i < self.digits.len() {
            self.digits[i] as u64
        } else {
            0
        }
    }

    /// The element of the field that the integer is, when it lies between
    /// zero and the order of the field.
    pub fn to_field(&self) -> (r: Option<Fr>)
        ensures
            match r {
                Some(x) => self@ == x.value() && 0 <= self@ < modulus(),
                None => self@ < 0 || self@ >= modulus(),
            },
    {
        let neg = self.is_negative();
        if neg {
            return None;
        }
        proof {
            use_type_invariant(self);
            reveal_with_fuel(digits_value, 10);
        }
        if self.digits.len() > 8 {
            proof {
                let d = self.digits@;
                lemma_tail_positive(d, 8);
                let b = digit_base();
                let v8 = digits_value(d, 8);
                let v7 = digits_value(d, 7);
                let v6 = digits_value(d, 6);
                let v5 = digits_value(d, 5);
                let v4 = digits_value(d, 4);
                let v3 = digits_value(d, 3);
                let v2 = digits_value(d, 2);
                let v1 = digits_value(d, 1);
                let v0 = digits_value(d, 0);
                assert(b * v8 >= b) by (nonlinear_arith)
                    requires
                        v8 >= 1,
                ;
                assert(b * v7 >= b * b) by (nonlinear_arith)
                    requires
                        v7 >= b,
                ;
                assert(b * v6 >= b * b * b) by (nonlinear_arith)
                    requires
                        v6 >= b * b,
                ;
                assert(b * v5 >= b * b * b * b) by (nonlinear_arith)
                    requires
                        v5 >= b * b * b,
                ;
                assert(b * v4 >= b * b * b * b * b) by (nonlinear_arith)
                    requires
                        v4 >= b * b * b * b,
                ;
                assert(b * v3 >= b * b * b * b * b * b) by (nonlinear_arith)
                    requires
                        v3 >= b * b * b * b * b,
                ;
                assert(b * v2 >= b * b * b * b * b * b * b) by (nonlinear_arith)
                    requires
                        v2 >= b * b * b * b * b * b,
                ;
                assert(b * v1 >= b * b * b * b * b * b * b * b) by (nonlinear_arith)
                    requires
                        v1 >= b * b * b * b * b * b * b,
                ;
                assert(v0 >= b * v1);
                assert(b * b * b * b * b * b * b * b > modulus());
            }
            return None;
        }
        let l0: u64 = self.digit(0) + self.digit(1) * 0x1_0000_0000;
        let l1: u64 = self.digit(2) + self.digit(3) * 0x1_0000_0000;
        let l2: u64 = self.digit(4) + self.digit(5) * 0x1_0000_0000;
        let l3: u64 = self.digit(6) + self.digit(7) * 0x1_0000_0000;
        assert(limbs_value(l0, l1, l2, l3) == digits_value(self.digits@, 0));
        Fr::from_limbs(l0, l1, l2, l3)
    }
}

} // verus!
