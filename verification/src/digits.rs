//! Natural numbers written as little-endian sequences of base 2^32 digits.
//! The heavy arithmetic on them is done by `num_bigint::BigUint`.

use num_bigint::BigUint;
use vstd::prelude::*;

verus! {

/// 2^32, the base of a digit.
pub open spec fn base() -> nat {
    0x1_0000_0000
}

/// The value of a little-endian digit sequence.
pub open spec fn digits_value(s: Seq<u32>) -> nat
    decreases s.len(),
{
    if s.len() == 0 {
        0
    } else {
        s[0] as nat + base() * digits_value(s.drop_first())
    }
}

/// `base()` raised to `n`.
pub open spec fn base_pow(n: nat) -> nat
    decreases n,
{
    if n == 0 {
        1
    } else {
        base() * base_pow((n - 1) as nat)
    }
}

/// A digit sequence without a leading (most significant) zero digit.
pub open spec fn is_normal_digits(s: Seq<u32>) -> bool {
    s.len() == 0 || s.last() != 0
}

pub proof fn lemma_value_push(s: Seq<u32>, d: u32)
    ensures
        digits_value(s.push(d)) == digits_value(s) + d * base_pow(s.len()),
    decreases s.len(),
{
    let t = s.push(d);
    if s.len() == 0 {
        assert(t.drop_first() =~= Seq::<u32>::empty());
        assert(digits_value(t.drop_first()) == 0);
        assert(digits_value(t) == d as nat);
        assert(base_pow(0) == 1);
        assert(digits_value(s) == 0);
    } else {
        let u = s.drop_first();
        assert(t.drop_first() =~= u.push(d));
        lemma_value_push(u, d);
        let v = digits_value(u);
        let p = base_pow(u.len());
        assert(base_pow(s.len()) == base() * p);
        assert(digits_value(t) == t[0] as nat + base() * digits_value(t.drop_first()));
        assert(t[0] == s[0]);
        assert(digits_value(t) == s[0] as nat + base() * (v + d * p));
        assert(digits_value(s) == s[0] as nat + base() * v);
        assert(base() * (v + d * p) == base() * v + d * (base() * p)) by (nonlinear_arith);
    }
}

pub proof fn lemma_base_pow_pos(n: nat)
    ensures
        base_pow(n) >= 1,
    decreases n,
{
    if n > 0 {
        lemma_base_pow_pos((n - 1) as nat);
        assert(base() * base_pow((n - 1) as nat) >= 1) by (nonlinear_arith)
            requires
                base_pow((n - 1) as nat) >= 1,
        ;
    }
}

pub proof fn lemma_value_bound(s: Seq<u32>)
    ensures
        digits_value(s) < base_pow(s.len()),
    decreases s.len(),
{
    if s.len() > 0 {
        lemma_value_bound(s.drop_first());
        let v = digits_value(s.drop_first());
        let p = base_pow((s.len() - 1) as nat);
        assert(s[0] as nat + base() * v < base() * p) by (nonlinear_arith)
            requires
                v < p,
                s[0] < base(),
        ;
    }
}

/// A normal sequence of `n + 1` digits or more has value at least `base_pow(n)`.
pub proof fn lemma_value_lower(s: Seq<u32>)
    requires
        s.len() > 0,
        is_normal_digits(s),
    ensures
        digits_value(s) >= base_pow((s.len() - 1) as nat),
{
    let t = s.drop_last();
    assert(t.push(s.last()) =~= s);
    lemma_value_push(t, s.last());
    lemma_base_pow_pos(t.len());
    assert(s.last() * base_pow(t.len()) >= base_pow(t.len())) by (nonlinear_arith)
        requires
            s.last() >= 1,
            base_pow(t.len()) >= 1,
    ;
}

/// Trailing zero digits do not change the value.
pub proof fn lemma_value_drop_zero(s: Seq<u32>)
    requires
        s.len() > 0,
        s.last() == 0,
    ensures
        digits_value(s.drop_last()) == digits_value(s),
{
    let t = s.drop_last();
    assert(t.push(0) =~= s);
    lemma_value_push(t, 0);
}

/// `BigUint` addition: the sum of the two values.
#[verifier::external_body]
pub(crate) fn digits_add(a: &Vec<u32>, b: &Vec<u32>) -> (r: Vec<u32>)
    ensures
        digits_value(r@) == digits_value(a@) + digits_value(b@),
{
    (BigUint::new(a.clone()) + BigUint::new(b.clone())).to_u32_digits()
}

/// `BigUint` subtraction, which panics when the result would be negative:
/// the difference of the two values.
#[verifier::external_body]
pub(crate) fn digits_sub(a: &Vec<u32>, b: &Vec<u32>) -> (r: Vec<u32>)
    requires
        digits_value(a@) >= digits_value(b@),
    ensures
        digits_value(r@) == digits_value(a@) - digits_value(b@),
{
    (BigUint::new(a.clone()) - BigUint::new(b.clone())).to_u32_digits()
}

/// `BigUint` multiplication: the product of the two values.
#[verifier::external_body]
pub(crate) fn digits_mul(a: &Vec<u32>, b: &Vec<u32>) -> (r: Vec<u32>)
    ensures
        digits_value(r@) == digits_value(a@) * digits_value(b@),
{
    (BigUint::new(a.clone()) * BigUint::new(b.clone())).to_u32_digits()
}

/// `BigUint` division, which panics on a zero divisor: the quotient rounded down.
#[verifier::external_body]
pub(crate) fn digits_div(a: &Vec<u32>, b: &Vec<u32>) -> (r: Vec<u32>)
    requires
        digits_value(b@) > 0,
    ensures
        digits_value(r@) == digits_value(a@) / digits_value(b@),
{
    (BigUint::new(a.clone()) / BigUint::new(b.clone())).to_u32_digits()
}

/// `BigUint` remainder, which panics on a zero divisor: the remainder of the division.
#[verifier::external_body]
pub(crate) fn digits_rem(a: &Vec<u32>, b: &Vec<u32>) -> (r: Vec<u32>)
    requires
        digits_value(b@) > 0,
    ensures
        digits_value(r@) == digits_value(a@) % digits_value(b@),
{
    (BigUint::new(a.clone()) % BigUint::new(b.clone())).to_u32_digits()
}

/// `BigUint` comparison with `<`: whether the first value is the smaller.
#[verifier::external_body]
pub(crate) fn digits_lt(a: &Vec<u32>, b: &Vec<u32>) -> (r: bool)
    ensures
        r == (digits_value(a@) < digits_value(b@)),
{
    BigUint::new(a.clone()) < BigUint::new(b.clone())
}

/// The digits with the most significant zero digits removed.
pub fn digits_normalize(s: &Vec<u32>) -> (r: Vec<u32>)
    ensures
        digits_value(r@) == digits_value(s@),
        is_normal_digits(r@),
{
    let mut r = s.clone();
    assert(r@ =~= s@);
    while r.len() > 0 && r[r.len() - 1] == 0
        invariant
            digits_value(r@) == digits_value(s@),
        decreases r.len(),
    {
        proof {
            lemma_value_drop_zero(r@);
        }
        r.pop();
    }
    r
}

/// The digits of a `u128`.
pub fn digits_from_u128(x: u128) -> (r: Vec<u32>)
    ensures
        digits_value(r@) == x,
{
    let mut r: Vec<u32> = Vec::new();
    let mut m = x;
    assert(base_pow(0) == 1);
    assert(digits_value(r@) == 0);
    assert(r@.len() == 0);
    while m > 0
        invariant
            digits_value(r@) + base_pow(r@.len()) * m == x,
        decreases m,
    {
        let d = (m % 0x1_0000_0000) as u32;
        let q = m / 0x1_0000_0000;
        proof {
            lemma_value_push(r@, d);
            let p = base_pow(r@.len());
            assert(m == q * base() + d);
            assert(p * m == d * p + (base() * p) * q) by (nonlinear_arith)
                requires
                    m == q * base() + d,
            ;
        }
        r.push(d);
        m = q;
    }
    r
}

/// The value of a digit sequence that fits in a `u128`.
pub fn digits_to_u128(s: &Vec<u32>) -> (r: u128)
    requires
        digits_value(s@) < 0x1_0000_0000_0000_0000_0000_0000_0000_0000,
    ensures
        r == digits_value(s@),
{
    let t = digits_normalize(s);
    let n = t.len();
    proof {
        if n > 4 {
            lemma_value_lower(t@);
            reveal_with_fuel(base_pow, 5);
            assert(base_pow(4) == 0x1_0000_0000_0000_0000_0000_0000_0000_0000);
            base_pow_mono(4, (n - 1) as nat);
        }
        assert(t@.subrange(n as int, n as int) =~= Seq::<u32>::empty());
    }
    let mut acc: u128 = 0;
    let mut i = n;
    while i > 0
        invariant
            i <= n == t@.len() <= 4,
            acc == digits_value(t@.subrange(i as int, n as int)),
        decreases i,
    {
        i = i - 1;
        let ghost u = t@.subrange(i as int, n as int);
        proof {
            assert(u.drop_first() =~= t@.subrange(i + 1, n as int));
            lemma_value_bound(t@.subrange(i + 1, n as int));
            reveal_with_fuel(base_pow, 5);
            assert(base_pow((n - i - 1) as nat) <= 0x1_0000_0000_0000_0000_0000_0000) by {
                base_pow_mono((n - i - 1) as nat, 3);
            }
            assert(acc * base() + t[i as int] < 0x1_0000_0000_0000_0000_0000_0000_0000_0000) by (nonlinear_arith)
                requires
                    acc < 0x1_0000_0000_0000_0000_0000_0000,
                    t[i as int] < base(),
            ;
        }
        acc = acc * 0x1_0000_0000 + t[i] as u128;
    }
    proof {
        assert(t@.subrange(0, n as int) =~= t@);
    }
    acc
}

pub proof fn base_pow_mono(m: nat, n: nat)
    requires
        m <= n,
    ensures
        base_pow(m) <= base_pow(n),
    decreases n,
{
    if m < n {
        base_pow_mono(m, (n - 1) as nat);
        lemma_base_pow_pos((n - 1) as nat);
        assert(base_pow((n - 1) as nat) <= base() * base_pow((n - 1) as nat)) by (nonlinear_arith)
            requires
                base_pow((n - 1) as nat) >= 1,
        ;
    }
}

} // verus!
