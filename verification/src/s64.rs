//! The class group with forms of 64-bit coefficients: `a`, `b` in an `i32`,
//! `c` in an `i64`, for discriminants that fit in an `i64`.

use crate::algo::{
    compose_exec, hash32_exec, identity_exec, lemma_pow_form, next_prime_exec, pow_exec,
    prime_form_exec, random_prime_search, reduce_exec, split_exec, MpzForm,
};
use crate::form::{
    disc, is_normal, lemma_reduce_general, lemma_prime_form_general,
    compose, cube, hash32, identity, is_ambiguous, is_form, is_reduced, lemma_compose,
    lemma_identity_bounds, lemma_form_disc_valid, lemma_next_prime_index, lemma_reduced_bounds,
    next_prime_index, pow, prime_form, reduce, split_factor, square, IntForm,
};
use crate::mpz::Mpz;
use crate::mpz_group::{lemma_prime_table_small, split_text};
use crate::primes::{prime_list, prime_table};
use crate::radix::{contains_nul, int_text, parse_text, read_decimal};
use vstd::prelude::*;

verus! {

/// A form with `a` and `b` in an `i32` and `c` in an `i64`.
#[derive(Debug, Clone, Copy, PartialEq, Eq, Structural)]
pub struct S64Form {
    pub a: i32,
    pub b: i32,
    pub c: i64,
}

impl View for S64Form {
    type V = IntForm;

    open spec fn view(&self) -> IntForm {
        IntForm { a: self.a as int, b: self.b as int, c: self.c as int }
    }
}

/// Whether the coefficients of a form fit in an `S64Form`.
pub open spec fn fits_s64(f: IntForm) -> bool {
    i32::MIN <= f.a <= i32::MAX && i32::MIN <= f.b <= i32::MAX && i64::MIN <= f.c <= i64::MAX
}

/// Reduced forms of a discriminant that fits in an `i64` fit in an `S64Form`.
pub proof fn lemma_fits_s64(d: int, f: IntForm)
    requires
        d < 0,
        i64::MIN <= d,
        is_form(d, f),
        is_reduced(f),
    ensures
        fits_s64(f),
{
    lemma_reduced_bounds(d, f);
    assert(f.a < 0x8000_0000) by (nonlinear_arith)
        requires
            3 * f.a * f.a <= -d,
            -d <= 0x8000_0000_0000_0000,
            f.a > 0,
    {
        if f.a >= 0x8000_0000 {
            assert(f.a * f.a >= 0x8000_0000 * 0x8000_0000);
        }
    }
    assert(4 * f.c < 0x2_0000_0000_0000_0000) by (nonlinear_arith)
        requires
            4 * f.c <= f.a * f.a - d,
            -d <= 0x8000_0000_0000_0000,
            f.a < 0x8000_0000,
            f.a > 0,
    {
        assert(f.a * f.a < 0x8000_0000 * 0x8000_0000);
    }
}

/// A form of a discriminant that fits in an `i64`, with `0 < a < 0x8000_0000`
/// and `-a < b <= a`, fits in an `S64Form`, whatever the sign of the
/// discriminant.
pub proof fn lemma_fits_s64_small(d: int, f: IntForm)
    requires
        i64::MIN <= d <= i64::MAX,
        f.a > 0,
        f.a < 0x8000_0000,
        disc(f) == d,
        is_normal(f),
    ensures
        fits_s64(f),
{
    assert(f.b * f.b <= f.a * f.a) by (nonlinear_arith)
        requires
            -f.a < f.b <= f.a,
    ;
    assert(f.c * 4 <= f.a + 0x8000_0000_0000_0000) by (nonlinear_arith)
        requires
            f.b * f.b - 4 * f.a * f.c == d,
            f.b * f.b <= f.a * f.a,
            d >= -0x8000_0000_0000_0000,
            f.a >= 1,
    {
        if f.c * 4 > f.a + 0x8000_0000_0000_0000 {
            assert(4 * f.a * f.c >= f.a * (f.a + 0x8000_0000_0000_0000 + 1));
        }
    }
    assert(f.c * 4 >= -0x8000_0000_0000_0000) by (nonlinear_arith)
        requires
            f.b * f.b - 4 * f.a * f.c == d,
            d < 0x8000_0000_0000_0000,
            f.a >= 1,
    {
        if f.c < 0 {
            assert(4 * f.a * f.c <= 4 * f.c);
        }
    }
}

/// The form with the same coefficients, of any size.
pub fn s64_to_mpz(f: &S64Form) -> (r: MpzForm)
    ensures
        r@ == f@,
{
    MpzForm::from_coefficients(
        Mpz::from_i64(f.a as i64),
        Mpz::from_i64(f.b as i64),
        Mpz::from_i64(f.c),
    )
}

/// The form with the same coefficients, which fit.
pub fn s64_from_mpz(f: &MpzForm) -> (r: S64Form)
    requires
        fits_s64(f@),
    ensures
        r@ == f@,
{
    S64Form { a: f.coeff_a().to_i32(), b: f.coeff_b().to_i32(), c: f.coeff_c().to_i64() }
}

/// The class group of a negative discriminant that fits in an `i64`.
pub struct S64Group {
    d: i64,
    primes: Vec<u32>,
}

impl S64Group {
    /// The group holds the prime table, or, where it was made for one
    /// computation, none.
    #[verifier::type_invariant]
    spec fn inv(self) -> bool {
        self.primes@ == prime_list() || self.primes@.len() == 0
    }

    /// The discriminant.
    pub closed spec fn discriminant(&self) -> int {
        self.d as int
    }

    fn d_mpz(&self) -> (r: Mpz)
        ensures
            r@ == self.discriminant(),
            i64::MIN <= r@ <= i64::MAX,
    {
        Mpz::from_i64(self.d)
    }

    /// The group of a discriminant.
    pub fn new(discriminant: i64) -> (r: Option<S64Group>)
        ensures
            r matches Some(g) && g.discriminant() == discriminant,
    {
        Some(S64Group { d: discriminant, primes: prime_table() })
    }

    /// The group of a discriminant, not wrapped.
    pub(crate) fn from_disc(discriminant: i64) -> (r: S64Group)
        ensures
            r.discriminant() == discriminant,
    {
        S64Group { d: discriminant, primes: Vec::new() }
    }

    /// Sets the discriminant.
    pub fn set_discriminant(&mut self, discriminant: i64)
        ensures
            final(self).discriminant() == discriminant,
    {
        proof {
            use_type_invariant(&*self);
        }
        self.d = discriminant;
    }

    /// Sets the discriminant, which must fit in an `i64`; always `true`.
    pub fn set_discriminant_mpz(&mut self, discriminant: &Mpz) -> (r: bool)
        requires
            i64::MIN <= discriminant@ <= i64::MAX,
        ensures
            r,
            final(self).discriminant() == discriminant@,
    {
        proof {
            use_type_invariant(&*self);
        }
        self.d = discriminant.to_i64();
        true
    }

    /// Sets the discriminant from decimal text, whose integer must fit in an
    /// `i64`; `false`, and no change, where the text is no integer.
    pub fn set_discriminant_str(&mut self, discriminant: &str) -> (r: bool)
        requires
            read_decimal(discriminant@) matches Some(v) ==> i64::MIN <= v <= i64::MAX,
        ensures
            r == read_decimal(discriminant@) is Some,
            final(self).discriminant() == if r {
                read_decimal(discriminant@).unwrap()
            } else {
                old(self).discriminant()
            },
    {
        if contains_nul(discriminant) {
            return false;
        }
        match parse_text(discriminant, 10) {
            None => false,
            Some(v) => self.set_discriminant_mpz(&v),
        }
    }

    /// Whether a form belongs to the group: `a > 0` and its discriminant is
    /// the group's.
    pub fn contains(&self, form: &S64Form) -> (r: bool)
        ensures
            r == is_form(self.discriminant(), form@),
    {
        let f = s64_to_mpz(form);
        let a = f.coeff_a();
        let b = f.coeff_b();
        let c = f.coeff_c();
        let dd = b.mul(b).sub(&Mpz::from_i64(4).mul(a).mul(c));
        Mpz::new().lt(a) && dd.eq(&self.d_mpz())
    }

    /// The principal form.
    pub fn identity(&self) -> (r: S64Form)
        ensures
            r@ == identity(self.discriminant()),
    {
        let d = self.d_mpz();
        proof {
            lemma_identity_bounds(d@);
        }
        s64_from_mpz(&identity_exec(&d))
    }

    /// Makes a form ready for use; a form of 64-bit coefficients needs nothing.
    pub fn init_form(&self, form: &mut S64Form)
        ensures
            *final(form) == *old(form),
    {
    }

    /// Releases what a form holds; a form of 64-bit coefficients holds nothing.
    pub fn clear_form(&self, form: &mut S64Form)
        ensures
            *final(form) == *old(form),
    {
    }

    /// The hash of a form.
    pub fn hash32(&self, form: &S64Form) -> (r: u32)
        ensures
            r == hash32(form@),
    {
        hash32_exec(&s64_to_mpz(form))
    }

    /// Whether the form has `a == 1`: the principal class.
    pub fn is_id(&self, form: &S64Form) -> (r: bool)
        ensures
            r == (form@.a == 1),
    {
        form.a == 1
    }

    /// Whether the (reduced) form is ambiguous and not the identity.
    pub fn is_ambiguous(&self, form: &S64Form) -> (r: bool)
        ensures
            r == is_ambiguous(form@),
    {
        form.a != 1 && (form.b == 0 || form.a == form.b || form.a as i64 == form.c)
    }

    /// Whether two forms have the same coefficients.
    pub fn equal(&self, a: &S64Form, b: &S64Form) -> (r: bool)
        ensures
            r == (a@ == b@),
    {
        a.a == b.a && a.b == b.b && a.c == b.c
    }

    /// Copies a form.
    pub fn set(&self, dst: &mut S64Form, src: &S64Form)
        ensures
            *final(dst) == *src,
    {
        *dst = *src;
    }

    /// Inverts a form: `(a, -b, c)`.
    pub fn inverse(&self, form: &mut S64Form)
        requires
            old(form).b != i32::MIN,
        ensures
            final(form)@ == crate::form::inverse(old(form)@),
    {
        form.b = -form.b;
    }

    /// Reduces a form of the group.
    pub fn reduce(&self, form: &mut S64Form)
        requires
            is_form(self.discriminant(), old(form)@),
        ensures
            final(form)@ == reduce(old(form)@),
    {
        let d = self.d_mpz();
        proof {
            lemma_reduce_general(form@);
            lemma_fits_s64_small(d@, reduce(form@));
        }
        *form = s64_from_mpz(&reduce_exec(&s64_to_mpz(form)));
    }

    /// Composes two forms of the group.
    pub fn compose(&self, a: &S64Form, b: &S64Form) -> (r: S64Form)
        requires
            self.discriminant() < 0,
            is_form(self.discriminant(), a@),
            is_form(self.discriminant(), b@),
        ensures
            r@ == compose(a@, b@),
    {
        let d = self.d_mpz();
        proof {
            lemma_form_disc_valid(d@, a@);
            lemma_compose(d@, a@, b@);
            lemma_fits_s64(d@, compose(a@, b@));
        }
        s64_from_mpz(&compose_exec(&s64_to_mpz(a), &s64_to_mpz(b)))
    }

    /// Squares a form of the group.
    pub fn square(&self, a: &S64Form) -> (r: S64Form)
        requires
            self.discriminant() < 0,
            is_form(self.discriminant(), a@),
        ensures
            r@ == square(a@),
    {
        self.compose(a, a)
    }

    /// Cubes a form of the group.
    pub fn cube(&self, a: &S64Form) -> (r: S64Form)
        requires
            self.discriminant() < 0,
            is_form(self.discriminant(), a@),
        ensures
            r@ == cube(a@),
    {
        proof {
            lemma_form_disc_valid(self.discriminant(), a@);
            lemma_compose(self.discriminant(), a@, a@);
        }
        let sq = self.compose(a, a);
        self.compose(&sq, a)
    }

    /// The form with the given coefficients.
    pub fn set3(&self, a: i32, b: i32, c: i64) -> (r: S64Form)
        ensures
            r == (S64Form { a, b, c }),
    {
        S64Form { a, b, c }
    }

    /// The prime form of `p`, where there is one.
    pub fn prime_form(&self, p: i32) -> (r: Option<S64Form>)
        ensures
            match r {
                Some(f) => prime_form(self.discriminant(), p as int) == Some(f@),
                None => prime_form(self.discriminant(), p as int) is None,
            },
    {
        let d = self.d_mpz();
        match prime_form_exec(&d, p) {
            Some(f) => {
                proof {
                    lemma_prime_form_general(d@, p as int);
                    lemma_fits_s64_small(d@, f@);
                }
                Some(s64_from_mpz(&f))
            },
            None => None,
        }
    }

    /// A prime form of a randomly chosen prime of the table; `None` where no
    /// prime of the table has one.
    pub fn random_prime_form(&self) -> (r: Option<S64Form>)
        ensures
            r is None <==> next_prime_index(self.discriminant(), prime_list(), 0) is None,
            r matches Some(f) ==> exists|i: int|
                0 <= i < prime_list().len() && prime_form(
                    self.discriminant(),
                    #[trigger] prime_list()[i] as int,
                ) == Some(f@),
    {
        let d = self.d_mpz();
        proof {
            use_type_invariant(self);
            lemma_prime_table_small();
        }
        let r = if self.primes.len() > 0 {
            random_prime_search(&d, &self.primes)
        } else {
            random_prime_search(&d, &prime_table())
        };
        match r {
            Some((i, f)) => {
                proof {
                    lemma_prime_form_general(d@, prime_list()[i as int] as int);
                    lemma_fits_s64_small(d@, f@);
                }
                Some(s64_from_mpz(&f))
            },
            None => None,
        }
    }

    /// The prime form of the first prime of the table, from index
    /// `prime_index` on, that has one, with that prime's index; `None` where
    /// the index lies outside the table or no later prime has one.
    pub fn next_prime_form(&self, prime_index: i32) -> (r: Option<(i32, S64Form)>)
        ensures
            match r {
                Some((i, f)) => next_prime_index(self.discriminant(), prime_list(), prime_index as int)
                    == Some(i as int) && prime_form(self.discriminant(), prime_list()[i as int] as int)
                    == Some(f@),
                None => next_prime_index(self.discriminant(), prime_list(), prime_index as int) is None,
            },
    {
        let d = self.d_mpz();
        proof {
            use_type_invariant(self);
            lemma_prime_table_small();
        }
        let r = if self.primes.len() > 0 {
            next_prime_exec(&d, &self.primes, prime_index)
        } else {
            next_prime_exec(&d, &prime_table(), prime_index)
        };
        match r {
            Some((i, f)) => {
                proof {
                    lemma_next_prime_index(self.discriminant(), prime_list(), prime_index as int);
                    assert(prime_list()[i as int] < 0x8000_0000);
                    lemma_prime_form_general(d@, prime_list()[i as int] as int);
                    lemma_fits_s64_small(d@, f@);
                }
                Some((i, s64_from_mpz(&f)))
            },
            None => None,
        }
    }

    /// The `exp`-th power of a form of the group.
    pub fn pow_u32(&self, base: &S64Form, exp: u32) -> (r: S64Form)
        requires
            self.discriminant() < 0,
            is_form(self.discriminant(), base@),
        ensures
            r@ == pow(self.discriminant(), base@, exp as nat),
    {
        let d = self.d_mpz();
        proof {
            lemma_form_disc_valid(d@, base@);
            lemma_pow_form(d@, base@, exp as nat);
            lemma_fits_s64(d@, pow(d@, base@, exp as nat));
        }
        s64_from_mpz(&pow_exec(&d, &s64_to_mpz(base), exp))
    }

    /// The factor of `n` that an ambiguous form gives, as decimal text.
    pub fn split_ambiguous_str(&self, form: &S64Form, n: &str) -> (r: Option<String>)
        ensures
            match r {
                Some(t) => split_text(form@, n@) matches Some(g) && t@ == int_text(g, 10),
                None => split_text(form@, n@) is None,
            },
    {
        if contains_nul(n) {
            return None;
        }
        match parse_text(n, 10) {
            None => None,
            Some(v) => match split_exec(&s64_to_mpz(form), &v) {
                None => None,
                Some(g) => Some(g.to_string_radix(10)),
            },
        }
    }

    /// The factor of `n` that an ambiguous form gives.
    pub fn split_ambiguous_mpz(&self, form: &S64Form, n: &Mpz) -> (r: Option<Mpz>)
        ensures
            match r {
                Some(g) => split_factor(form@, n@) == Some(g@),
                None => split_factor(form@, n@) is None,
            },
    {
        split_exec(&s64_to_mpz(form), n)
    }
}

} // verus!
