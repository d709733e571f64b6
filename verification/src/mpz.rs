//! Signed integers of any size.

use crate::digits::{digits_add, digits_sub, digits_mul, digits_div, digits_rem, digits_lt, digits_from_u128, digits_to_u128, digits_value};
use vstd::prelude::*;

verus! {

/// An integer of any size: a sign and a magnitude in base 2^32 digits.
#[derive(Debug, Clone)]
pub struct Mpz {
    neg: bool,
    mag: Vec<u32>,
}

impl View for Mpz {
    type V = int;

    closed spec fn view(&self) -> int {
        if self.neg {
            -(digits_value(self.mag@) as int)
        } else {
            digits_value(self.mag@) as int
        }
    }
}

pub open spec fn abs(x: int) -> int {
    if x < 0 {
        -x
    } else {
        x
    }
}

impl Mpz {
    /// Zero.
    pub fn new() -> (r: Mpz)
        ensures
            r@ == 0,
    {
        let r = Mpz { neg: false, mag: Vec::new() };
        assert(digits_value(r.mag@) == 0);
        r
    }

    fn from_sign_mag(neg: bool, mag: Vec<u32>) -> (r: Mpz)
        ensures
            r@ == (if neg {
                -(digits_value(mag@) as int)
            } else {
                digits_value(mag@) as int
            }),
    {
        Mpz { neg, mag }
    }

    /// The value of a `u128`.
    pub fn from_u128(value: u128) -> (r: Mpz)
        ensures
            r@ == value,
    {
        Mpz::from_sign_mag(false, digits_from_u128(value))
    }

    /// The value of an `i128`.
    pub fn from_i128(value: i128) -> (r: Mpz)
        ensures
            r@ == value,
    {
        if value < 0 {
            let m: u128 = ((-(value + 1)) as u128) + 1;
            Mpz::from_sign_mag(true, digits_from_u128(m))
        } else {
            Mpz::from_sign_mag(false, digits_from_u128(value as u128))
        }
    }

    /// The value of an `i64`.
    pub fn from_i64(value: i64) -> (r: Mpz)
        ensures
            r@ == value,
    {
        Mpz::from_i128(value as i128)
    }

    /// The value of a `u64`.
    pub fn from_u64(value: u64) -> (r: Mpz)
        ensures
            r@ == value,
    {
        Mpz::from_u128(value as u128)
    }

    /// Sets the value to that of an `i64`.
    pub fn set_i64(&mut self, value: i64)
        ensures
            final(self)@ == value,
    {
        *self = Mpz::from_i64(value);
    }

    /// Sets the value to that of a `u64`.
    pub fn set_u64(&mut self, value: u64)
        ensures
            final(self)@ == value,
    {
        *self = Mpz::from_u64(value);
    }

    /// The value as an `i128`.
    pub fn to_i128(&self) -> (r: i128)
        requires
            i128::MIN <= self@ <= i128::MAX,
        ensures
            r == self@,
    {
        let m = digits_to_u128(&self.mag);
        if self.neg && m > 0 {
            (-((m - 1) as i128)) - 1
        } else {
            m as i128
        }
    }

    /// The value as an `i64`.
    pub fn to_i64(&self) -> (r: i64)
        requires
            i64::MIN <= self@ <= i64::MAX,
        ensures
            r == self@,
    {
        self.to_i128() as i64
    }

    /// The value as an `i32`.
    pub fn to_i32(&self) -> (r: i32)
        requires
            i32::MIN <= self@ <= i32::MAX,
        ensures
            r == self@,
    {
        self.to_i128() as i32
    }

    /// A copy with the same value.
    pub fn copy(&self) -> (r: Mpz)
        ensures
            r@ == self@,
    {
        let mag = self.mag.clone();
        assert(mag@ =~= self.mag@);
        Mpz { neg: self.neg, mag }
    }

    /// The negation.
    pub fn neg(&self) -> (r: Mpz)
        ensures
            r@ == -self@,
    {
        let mag = self.mag.clone();
        assert(mag@ =~= self.mag@);
        Mpz { neg: !self.neg, mag }
    }

    /// The sum.
    pub fn add(&self, other: &Mpz) -> (r: Mpz)
        ensures
            r@ == self@ + other@,
    {
        if self.neg == other.neg {
            Mpz::from_sign_mag(self.neg, digits_add(&self.mag, &other.mag))
        } else if digits_lt(&self.mag, &other.mag) {
            Mpz::from_sign_mag(other.neg, digits_sub(&other.mag, &self.mag))
        } else {
            Mpz::from_sign_mag(self.neg, digits_sub(&self.mag, &other.mag))
        }
    }

    /// The difference.
    pub fn sub(&self, other: &Mpz) -> (r: Mpz)
        ensures
            r@ == self@ - other@,
    {
        self.add(&other.neg())
    }

    /// The product.
    pub fn mul(&self, other: &Mpz) -> (r: Mpz)
        ensures
            r@ == self@ * other@,
    {
        let m = digits_mul(&self.mag, &other.mag);
        let r = Mpz::from_sign_mag(self.neg != other.neg, m);
        proof {
            let a = digits_value(self.mag@) as int;
            let b = digits_value(other.mag@) as int;
            assert((-a) * (-b) == a * b) by (nonlinear_arith);
            assert((-a) * b == -(a * b)) by (nonlinear_arith);
            assert(a * (-b) == -(a * b)) by (nonlinear_arith);
        }
        r
    }

    /// The product with a small integer.
    pub fn mul_i64(&self, k: i64) -> (r: Mpz)
        ensures
            r@ == self@ * k,
    {
        self.mul(&Mpz::from_i64(k))
    }

    /// The sum with a small integer.
    pub fn add_i64(&self, k: i64) -> (r: Mpz)
        ensures
            r@ == self@ + k,
    {
        self.add(&Mpz::from_i64(k))
    }

    /// Quotient and remainder of the division by a positive integer, the
    /// quotient rounded towards minus infinity.
    pub fn fdiv_qr(&self, d: &Mpz) -> (r: (Mpz, Mpz))
        requires
            d@ > 0,
        ensures
            r.0@ == self@ / d@,
            r.1@ == self@ % d@,
    {
        let q = digits_div(&self.mag, &d.mag);
        let m = digits_rem(&self.mag, &d.mag);
        let ghost a = digits_value(self.mag@) as int;
        let ghost dv = d@;
        proof {
            assert(!d.neg);
            vstd::arithmetic::div_mod::lemma_fundamental_div_mod(a, dv);
        }
        if !self.neg {
            (Mpz::from_sign_mag(false, q), Mpz::from_sign_mag(false, m))
        } else if digits_lt(&m, &Vec::new()) || !digits_lt(&Vec::new(), &m) {
            // the magnitude is a multiple of d
            proof {
                assert(digits_value(Seq::<u32>::empty()) == 0);
                assert(a % dv == 0);
                let qq = a / dv;
                assert(-a == dv * (-qq)) by (nonlinear_arith)
                    requires
                        a == dv * qq,
                ;
                vstd::arithmetic::div_mod::lemma_fundamental_div_mod_converse(-a, dv, -qq, 0);
            }
            (Mpz::from_sign_mag(true, q), Mpz::new())
        } else {
            let one = digits_from_u128(1);
            let q1 = digits_add(&q, &one);
            let r1 = digits_sub(&d.mag, &m);
            proof {
                assert(digits_value(Seq::<u32>::empty()) == 0);
                let qq = a / dv;
                let rr = a % dv;
                assert(0 < rr < dv);
                assert(-a == dv * (-qq - 1) + (dv - rr)) by (nonlinear_arith)
                    requires
                        a == dv * qq + rr,
                ;
                vstd::arithmetic::div_mod::lemma_fundamental_div_mod_converse(
                    -a,
                    dv,
                    -qq - 1,
                    dv - rr,
                );
            }
            (Mpz::from_sign_mag(true, q1), Mpz::from_sign_mag(false, r1))
        }
    }

    /// Whether the value is less than the other.
    pub fn lt(&self, other: &Mpz) -> (r: bool)
        ensures
            r == (self@ < other@),
    {
        let d = other.sub(self);
        let z: Vec<u32> = Vec::new();
        assert(digits_value(z@) == 0);
        !d.neg && digits_lt(&z, &d.mag)
    }

    /// Whether the values are equal.
    pub fn eq(&self, other: &Mpz) -> (r: bool)
        ensures
            r == (self@ == other@),
    {
        !self.lt(other) && !other.lt(self)
    }

    /// Whether the value is zero.
    pub fn is_zero(&self) -> (r: bool)
        ensures
            r == (self@ == 0),
    {
        let z: Vec<u32> = Vec::new();
        assert(digits_value(z@) == 0);
        !digits_lt(&z, &self.mag)
    }

    /// Whether the value is negative.
    pub fn is_negative(&self) -> (r: bool)
        ensures
            r == (self@ < 0),
    {
        self.neg && !self.is_zero()
    }

    /// The absolute value.
    pub fn abs(&self) -> (r: Mpz)
        ensures
            r@ == abs(self@),
    {
        if self.is_negative() {
            self.neg()
        } else {
            self.copy()
        }
    }
}

impl Default for Mpz {
    fn default() -> (r: Mpz)
        ensures
            r@ == 0,
    {
        Mpz::new()
    }
}

} // verus!
