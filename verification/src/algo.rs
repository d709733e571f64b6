//! The algorithms on forms with integer coefficients of any size.

use crate::form::{
    lemma_next_prime_index,
    lemma_compose_form, lemma_pow_form_general, lemma_square_identity,
    ambiguous_part, first_root, prime_index_from, hash32, next_prime_index, prime_form, root_ok, split_factor,
    compose, compose_raw, cube, disc, gcd, identity, inverse, is_ambiguous, is_form, is_reduced,
    lemma_compose, lemma_compose_raw, lemma_identity, lemma_normalize, lemma_pow_small,
    lemma_reduce, lemma_reduce_unfold, normalize, pow, reduce, square, valid_disc, xgcd, IntForm,
};
use crate::mpz::{abs, Mpz};
use crate::mpz_group::lemma_prime_table_small;
use crate::primes::prime_list;
use vstd::prelude::*;

verus! {

/// A form whose coefficients are integers of any size.
pub struct MpzForm {
    a: Mpz,
    b: Mpz,
    c: Mpz,
}

impl View for MpzForm {
    type V = IntForm;

    closed spec fn view(&self) -> IntForm {
        IntForm { a: self.a@, b: self.b@, c: self.c@ }
    }
}

impl MpzForm {
    /// The form with the given coefficients.
    pub fn from_coefficients(a: Mpz, b: Mpz, c: Mpz) -> (r: MpzForm)
        ensures
            r@ == (IntForm { a: a@, b: b@, c: c@ }),
    {
        MpzForm { a, b, c }
    }

    /// The form `(0, 0, 0)`.
    pub fn zero() -> (r: MpzForm)
        ensures
            r@ == (IntForm { a: 0, b: 0, c: 0 }),
    {
        MpzForm { a: Mpz::new(), b: Mpz::new(), c: Mpz::new() }
    }

    /// A copy of the form.
    pub fn copy(&self) -> (r: MpzForm)
        ensures
            r@ == self@,
    {
        MpzForm { a: self.a.copy(), b: self.b.copy(), c: self.c.copy() }
    }

    /// The coefficient `a`.
    pub fn coeff_a(&self) -> (r: &Mpz)
        ensures
            r@ == self@.a,
    {
        &self.a
    }

    /// The coefficient `b`.
    pub fn coeff_b(&self) -> (r: &Mpz)
        ensures
            r@ == self@.b,
    {
        &self.b
    }

    /// The coefficient `c`.
    pub fn coeff_c(&self) -> (r: &Mpz)
        ensures
            r@ == self@.c,
    {
        &self.c
    }

    /// Replaces the coefficient `a`.
    pub fn set_coeff_a(&mut self, v: Mpz)
        ensures
            final(self)@ == (IntForm { a: v@, ..old(self)@ }),
    {
        self.a = v;
    }

    /// Replaces the coefficient `b`.
    pub fn set_coeff_b(&mut self, v: Mpz)
        ensures
            final(self)@ == (IntForm { b: v@, ..old(self)@ }),
    {
        self.b = v;
    }

    /// Replaces the coefficient `c`.
    pub fn set_coeff_c(&mut self, v: Mpz)
        ensures
            final(self)@ == (IntForm { c: v@, ..old(self)@ }),
    {
        self.c = v;
    }
}

/// The extended Euclidean algorithm.
pub fn xgcd_exec(a: &Mpz, b: &Mpz) -> (r: (Mpz, Mpz, Mpz))
    ensures
        (r.0@, r.1@, r.2@) == xgcd(a@, b@),
    decreases (if b@ > 0 {
        b@
    } else {
        0
    }),
{
    let zero = Mpz::new();
    if !zero.lt(b) {
        (a.copy(), Mpz::from_i64(1), Mpz::new())
    } else {
        let (q, m) = a.fdiv_qr(b);
        proof {
            vstd::arithmetic::div_mod::lemma_mod_bound(a@, b@);
        }
        let t = xgcd_exec(b, &m);
        let y = t.1.sub(&q.mul(&t.2));
        (t.0, t.2, y)
    }
}

/// The normalization of a form with `a > 0`.
pub fn normalize_exec(f: &MpzForm) -> (r: MpzForm)
    requires
        f@.a > 0,
    ensures
        r@ == normalize(f@),
{
    let two = Mpz::from_i64(2);
    let two_a = two.mul(&f.a);
    let r = f.a.sub(&f.b).fdiv_qr(&two_a).0;
    let b = f.b.add(&two.mul(&r).mul(&f.a));
    let c = f.a.mul(&r).mul(&r).add(&f.b.mul(&r)).add(&f.c);
    MpzForm { a: f.a.copy(), b, c }
}

/// The reduction of a form with `a > 0`.
pub fn reduce_exec(f: &MpzForm) -> (r: MpzForm)
    requires
        f@.a > 0,
    ensures
        r@ == reduce(f@),
{
    let zero = Mpz::new();
    let mut g = f.copy();
    loop
        invariant
            zero@ == 0,
            g@.a > 0,
            reduce(g@) == reduce(f@),
        decreases g@.a,
    {
        let h = normalize_exec(&g);
        proof {
            lemma_normalize(g@);
            lemma_reduce_unfold(g@);
        }
        if zero.lt(&h.c) && h.c.lt(&h.a) {
            let ghost next = IntForm { a: h@.c, b: -h@.b, c: h@.a };
            assert(reduce(g@) == reduce(next));
            g = MpzForm { a: h.c.copy(), b: h.b.neg(), c: h.a.copy() };
            assert(g@ == next);
        } else if h.a.eq(&h.c) && h.b.is_negative() {
            return MpzForm { a: h.a.copy(), b: h.b.neg(), c: h.c.copy() };
        } else {
            return h;
        }
    }
}

/// The composite of two forms of one discriminant, reduced.
pub fn compose_exec(f1: &MpzForm, f2: &MpzForm) -> (r: MpzForm)
    requires
        is_form(disc(f1@), f1@),
        is_form(disc(f1@), f2@),
    ensures
        r@ == compose(f1@, f2@),
{
    let ghost d = disc(f1@);
    proof {
        lemma_compose_raw(d, f1@, f2@);
    }
    let two = Mpz::from_i64(2);
    let s = f1.b.add(&f2.b).fdiv_qr(&two).0;
    let n = f2.b.sub(&s);
    let e1 = xgcd_exec(&f2.a, &f1.a);
    let e2 = xgcd_exec(&s, &e1.0);
    let d1 = &e2.0;
    let mu = e2.2.mul(&e1.1);
    let nu = &e2.1;
    let v1 = f1.a.fdiv_qr(d1).0;
    let v2 = f2.a.fdiv_qr(d1).0;
    let rr = mu.neg().mul(&n).sub(&nu.mul(&f2.c));
    let r = rr.fdiv_qr(&v1).1;
    let a3 = v1.mul(&v2);
    let b3 = f2.b.add(&two.mul(&v2).mul(&r));
    let c3 = d1.mul(&f2.c).add(&r.mul(&f2.b.add(&v2.mul(&r)))).fdiv_qr(&v1).0;
    let raw = MpzForm { a: a3, b: b3, c: c3 };
    assert(raw@ == compose_raw(f1@, f2@));
    reduce_exec(&raw)
}

/// The principal form of a discriminant.
pub fn identity_exec(d: &Mpz) -> (r: MpzForm)
    ensures
        r@ == identity(d@),
{
    let (_, b) = d.fdiv_qr(&Mpz::from_i64(2));
    let c = b.sub(d).fdiv_qr(&Mpz::from_i64(4)).0;
    MpzForm { a: Mpz::from_i64(1), b, c }
}

/// Powers stay forms of the discriminant.
pub proof fn lemma_pow_form(d: int, f: IntForm, e: nat)
    requires
        valid_disc(d),
        is_form(d, f),
    ensures
        is_form(d, pow(d, f, e)),
        is_reduced(pow(d, f, e)),
    decreases e,
{
    if e == 0 {
        lemma_identity(d);
    } else {
        lemma_pow_form(d, f, e / 2);
        let p = pow(d, f, e / 2);
        lemma_compose(d, p, p);
        if e % 2 == 1 {
            lemma_compose(d, square(p), f);
        }
    }
}

/// The `e`-th power of a form, reduced.
pub fn pow_exec(d: &Mpz, f: &MpzForm, e: u32) -> (r: MpzForm)
    requires
        is_form(d@, f@),
    ensures
        r@ == pow(d@, f@, e as nat),
{
    let mut res = identity_exec(d);
    let mut p: u64 = 0x1_0000_0000;
    let ghost mut k: nat = 32;
    proof {
        lemma_square_identity(d@);
        vstd::arithmetic::power2::lemma2_to64();
        vstd::arithmetic::power2::lemma2_to64_rest();
        assert((e as nat) / (0x1_0000_0000nat) == 0);
    }
    while p > 1
        invariant
            is_form(d@, f@),
            1 <= p <= 0x1_0000_0000,
            p == vstd::arithmetic::power2::pow2(k),
            res@ == pow(d@, f@, (e as nat) / (p as nat)),
        decreases p,
    {
        proof {
            if k == 0 {
                vstd::arithmetic::power2::lemma2_to64();
            }
            vstd::arithmetic::power2::lemma_pow2_unfold(k);
        }
        let ghost old_p = p;
        p = p / 2;
        proof {
            assert(k > 0);
            k = (k - 1) as nat;
            assert(old_p == 2 * p);
            vstd::arithmetic::div_mod::lemma_div_denominator(e as int, p as int, 2);
            lemma_pow_form_general(d@, f@, (e as nat) / (old_p as nat));
            lemma_square_identity(d@);
        }
        let ghost q = (e as nat) / (p as nat);
        let sq = compose_exec(&res, &res);
        if (e as u64 / p) % 2 == 1 {
            proof {
                lemma_compose_form(d@, res@, res@);
            }
            res = compose_exec(&sq, f);
        } else {
            res = sq;
        }
        assert(res@ == pow(d@, f@, q));
    }
    assert((e as nat) / 1 == e);
    res
}

/// Two numbers differ by a multiple of `m` exactly when their remainders agree.
pub proof fn lemma_mod_diff(x: int, y: int, m: int)
    requires
        m > 0,
    ensures
        ((x - y) % m == 0) == (x % m == y % m),
{
    vstd::arithmetic::div_mod::lemma_fundamental_div_mod(x, m);
    vstd::arithmetic::div_mod::lemma_fundamental_div_mod(y, m);
    vstd::arithmetic::div_mod::lemma_fundamental_div_mod(x - y, m);
    let (qx, rx) = (x / m, x % m);
    let (qy, ry) = (y / m, y % m);
    let (q, r) = ((x - y) / m, (x - y) % m);
    if rx == ry {
        assert(x - y == m * (qx - qy)) by (nonlinear_arith)
            requires
                x == m * qx + rx,
                y == m * qy + ry,
                rx == ry,
        ;
        vstd::arithmetic::div_mod::lemma_fundamental_div_mod_converse(x - y, m, qx - qy, 0);
    }
    if r == 0 {
        assert(rx - ry == m * (q - qx + qy)) by (nonlinear_arith)
            requires
                x == m * qx + rx,
                y == m * qy + ry,
                x - y == m * q,
        ;
        let k = q - qx + qy;
        assert(k == 0) by (nonlinear_arith)
            requires
                rx - ry == m * k,
                0 <= rx < m,
                0 <= ry < m,
        {
            if k >= 1 {
                assert(m * k >= m);
            } else if k <= -1 {
                assert(m * k <= -m);
            }
        }
    }
}

/// The prime form of `p`, or `None`.
pub fn prime_form_exec(d: &Mpz, p: i32) -> (r: Option<MpzForm>)
    ensures
        match r {
            Some(f) => prime_form(d@, p as int) == Some(f@),
            None => prime_form(d@, p as int) is None,
        },
{
    if p <= 0 {
        return None;
    }
    let m: u64 = 4 * (p as u64);
    let mm = Mpz::from_u64(m);
    let dm = d.fdiv_qr(&mm).1.to_i64() as u64;
    proof {
        vstd::arithmetic::div_mod::lemma_mod_bound(d@, m as int);
    }
    let pp = p as u64;
    let mut b: u64 = 0;
    while b <= pp
        invariant
            pp == p,
            0 < p,
            m == 4 * p,
            mm@ == m,
            dm == d@ % (m as int),
            b <= pp + 1,
            first_root(d@, p as int, 0) == first_root(d@, p as int, b as int),
        decreases pp + 1 - b,
    {
        assert(b * b <= 0x4000_0000_0000_0000) by (nonlinear_arith)
            requires
                b <= pp,
                pp < 0x8000_0000,
        ;
        let sq = b * b;
        proof {
            lemma_mod_diff(sq as int, d@, m as int);
        }
        if sq % m == dm {
            assert(root_ok(d@, p as int, b as int));
            assert(first_root(d@, p as int, b as int) == Some(b as int));
            let bb = Mpz::from_u64(b);
            let c = bb.mul(&bb).sub(d).fdiv_qr(&mm).0;
            let f = MpzForm { a: Mpz::from_i64(p as i64), b: bb, c };
            return Some(reduce_exec(&f));
        }
        b = b + 1;
    }
    None
}

/// The first prime of the list, from index `start` on, with a prime form.
pub fn next_prime_exec(d: &Mpz, list: &Vec<u32>, start: i32) -> (r: Option<(i32, MpzForm)>)
    requires
        list@.len() < 0x8000_0000,
        forall|i: int| 0 <= i < list@.len() ==> #[trigger] list@[i] < 0x8000_0000,
    ensures
        match r {
            Some((i, f)) => next_prime_index(d@, list@, start as int) == Some(i as int)
                && prime_form(d@, list@[i as int] as int) == Some(f@),
            None => next_prime_index(d@, list@, start as int) is None,
        },
{
    if start < 0 {
        return None;
    }
    let mut i = start as usize;
    while i < list.len()
        invariant
            list@.len() < 0x8000_0000,
            forall|j: int| 0 <= j < list@.len() ==> #[trigger] list@[j] < 0x8000_0000,
            start >= 0,
            start <= i,
            next_prime_index(d@, list@, start as int) == next_prime_index(d@, list@, i as int),
        decreases list@.len() - i,
    {
        let q = list[i];
        match prime_form_exec(d, q as i32) {
            Some(f) => {
                return Some((i as i32, f));
            },
            None => {},
        }
        i = i + 1;
    }
    None
}

/// The hash of a form.
pub fn hash32_exec(f: &MpzForm) -> (r: u32)
    ensures
        r == hash32(f@),
{
    let w = Mpz::from_u64(0x1_0000_0000);
    let a = f.a.fdiv_qr(&w).1.to_i64() as u64;
    let b = f.b.fdiv_qr(&w).1.to_i64() as u64;
    proof {
        vstd::arithmetic::div_mod::lemma_mod_bound(f@.a, 0x1_0000_0000);
        vstd::arithmetic::div_mod::lemma_mod_bound(f@.b, 0x1_0000_0000);
    }
    assert(a * 2654435761 + b < 0x1_0000_0000_0000_0000) by (nonlinear_arith)
        requires
            a < 0x1_0000_0000,
            b < 0x1_0000_0000,
    ;
    ((a * 2654435761 + b) % 0x1_0000_0000) as u32
}

/// Whether a form is ambiguous.
pub fn is_ambiguous_exec(f: &MpzForm) -> (r: bool)
    ensures
        r == is_ambiguous(f@),
{
    !f.a.eq(&Mpz::from_i64(1)) && (f.b.is_zero() || f.a.eq(&f.b) || f.a.eq(&f.c))
}

/// Whether two forms have the same coefficients.
pub fn equal_exec(f: &MpzForm, g: &MpzForm) -> (r: bool)
    ensures
        r == (f@ == g@),
{
    f.a.eq(&g.a) && f.b.eq(&g.b) && f.c.eq(&g.c)
}

/// Whether `a == 1`.
pub fn is_id_exec(f: &MpzForm) -> (r: bool)
    ensures
        r == (f@.a == 1),
{
    f.a.eq(&Mpz::from_i64(1))
}

/// The inverse `(a, -b, c)`.
pub fn inverse_exec(f: &MpzForm) -> (r: MpzForm)
    ensures
        r@ == inverse(f@),
{
    MpzForm { a: f.a.copy(), b: f.b.neg(), c: f.c.copy() }
}

/// The factor of `n` that an ambiguous form gives, or `None`.
pub fn split_exec(f: &MpzForm, n: &Mpz) -> (r: Option<Mpz>)
    ensures
        match r {
            Some(g) => split_factor(f@, n@) == Some(g@),
            None => split_factor(f@, n@) is None,
        },
{
    if !is_ambiguous_exec(f) {
        return None;
    }
    let part = if !f.b.is_zero() && !f.a.eq(&f.b) && f.a.eq(&f.c) {
        Mpz::from_i64(2).mul(&f.a).sub(&f.b)
    } else {
        f.a.copy()
    };
    assert(part@ == ambiguous_part(f@));
    let an = n.abs();
    let g = xgcd_exec(&part.abs(), &an).0;
    assert(g@ == gcd(ambiguous_part(f@), n@));
    if Mpz::from_i64(1).lt(&g) && g.lt(&an) {
        Some(g)
    } else {
        None
    }
}

/// `rand::random::<u32>()`: a random number; nothing is promised of it.
#[verifier::external_body]
pub(crate) fn random_u32() -> u32 {
    rand::random::<u32>()
}

/// A random index below `n`, or 0 where `n` is 0.
pub(crate) fn random_start(n: usize) -> (r: u32)
    requires
        n < 0x8000_0000,
    ensures
        n > 0 ==> r < n,
{
    if n == 0 {
        0
    } else {
        random_u32() % (n as u32)
    }
}

/// The prime form found by a search from index `start`, or, failing that,
/// by one from index 0.
pub fn prime_form_from(d: &Mpz, list: &Vec<u32>, start: u32) -> (r: Option<(i32, MpzForm)>)
    requires
        list@.len() < 0x8000_0000,
        forall|i: int| 0 <= i < list@.len() ==> #[trigger] list@[i] < 0x8000_0000,
    ensures
        match r {
            Some((i, f)) => prime_index_from(d@, list@, start as int) == Some(i as int)
                && prime_form(d@, list@[i as int] as int) == Some(f@),
            None => prime_index_from(d@, list@, start as int) is None,
        },
{
    let first = if start < 0x8000_0000 {
        next_prime_exec(d, list, start as i32)
    } else {
        None
    };
    match first {
        Some(x) => Some(x),
        None => next_prime_exec(d, list, 0),
    }
}

/// A prime form of a prime of the table, found by a search from a random
/// index; `None` where no prime of the table has one.
pub fn random_prime_search(d: &Mpz, table: &Vec<u32>) -> (r: Option<(i32, MpzForm)>)
    requires
        table@ == prime_list(),
    ensures
        r is None <==> next_prime_index(d@, prime_list(), 0) is None,
        r matches Some((i, f)) ==> 0 <= i < prime_list().len() && prime_form(
            d@,
            prime_list()[i as int] as int,
        ) == Some(f@),
{
    proof {
        lemma_prime_table_small();
    }
    let start = random_start(table.len());
    let r = prime_form_from(d, table, start);
    proof {
        lemma_next_prime_index(d@, prime_list(), start as int);
        lemma_next_prime_index(d@, prime_list(), 0);
    }
    r
}

} // verus!
