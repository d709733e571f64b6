//! The class group that carries out every operation twice, with forms of
//! any size and with the arithmetic that the size of the discriminant calls
//! for, and keeps both results.

use crate::algo::{lemma_pow_form, random_prime_search, MpzForm};
use crate::form::{
    compose, cube, hash32, identity, inverse, is_ambiguous, is_form, lemma_compose,
    lemma_next_prime_index, next_prime_index, pow, prime_form, reduce, split_factor, square,
    IntForm,
};
use crate::generic::{backend_of, GenBackend, GenForm, GenGroup};
use crate::mpz::Mpz;
use crate::mpz_group::{lemma_prime_table_small, split_text, MpzGroup};
use crate::primes::{prime_list, prime_table};
use crate::radix::{int_text, read_decimal};
use vstd::prelude::*;

verus! {

/// A form held twice: with coefficients of any size, and in a form of the
/// generic group.
pub struct SanityForm {
    mpz: MpzForm,
    gen: GenForm,
}

impl SanityForm {
    /// The form with coefficients of any size.
    pub closed spec fn mpz_view(&self) -> IntForm {
        self.mpz@
    }

    /// The form of the generic group.
    pub closed spec fn gen_form(&self) -> GenForm {
        self.gen
    }

    /// Both copies hold the same form, for a group of discriminant `d`.
    pub open spec fn agrees(&self, d: int) -> bool {
        self.gen_form().slot(backend_of(d)) == self.mpz_view()
    }
}

/// The class group of a discriminant that computes each result in
/// two arithmetics.
pub struct SanityGroup {
    mpz: MpzGroup,
    gen: GenGroup,
}

impl SanityGroup {
    #[verifier::type_invariant]
    spec fn inv(self) -> bool {
        self.mpz.discriminant() == self.gen.discriminant()
    }

    /// The discriminant.
    pub closed spec fn discriminant(&self) -> int {
        self.mpz.discriminant()
    }

    fn facts(&self)
        ensures
            self.mpz.discriminant() == self.discriminant(),
            self.gen.discriminant() == self.discriminant(),
            self.gen.backend_spec() == backend_of(self.discriminant()),
    {
        proof {
            use_type_invariant(self);
        }
    }

    /// The group of a discriminant.
    pub fn new_mpz(discriminant: &Mpz) -> (r: Option<SanityGroup>)
        ensures
            r matches Some(g) && g.discriminant() == discriminant@,
    {
        match (MpzGroup::new_mpz(discriminant), GenGroup::new_mpz(discriminant)) {
            (Some(m), Some(g)) => Some(SanityGroup { mpz: m, gen: g }),
            _ => None,
        }
    }

    /// The group of a discriminant given as an `i64`.
    pub fn new_i64(discriminant: i64) -> (r: Option<SanityGroup>)
        ensures
            r matches Some(g) && g.discriminant() == discriminant,
    {
        SanityGroup::new_mpz(&Mpz::from_i64(discriminant))
    }

    /// The group of a discriminant given as an `i128`.
    pub fn new_i128(discriminant: i128) -> (r: Option<SanityGroup>)
        ensures
            r matches Some(g) && g.discriminant() == discriminant,
    {
        SanityGroup::new_mpz(&Mpz::from_i128(discriminant))
    }

    /// The group of a discriminant given as decimal text; `None` where the
    /// text is no integer.
    pub fn new_str(discriminant: &str) -> (r: Option<SanityGroup>)
        ensures
            r is Some <==> read_decimal(discriminant@) is Some,
            r matches Some(g) ==> read_decimal(discriminant@) == Some(g.discriminant()),
    {
        match (MpzGroup::new_str(discriminant), GenGroup::new_str(discriminant)) {
            (Some(m), Some(g)) => Some(SanityGroup { mpz: m, gen: g }),
            _ => None,
        }
    }

    /// Sets the discriminant; always `true`.
    pub fn set_discriminant_mpz(&mut self, discriminant: &Mpz) -> (r: bool)
        ensures
            r,
            final(self).discriminant() == discriminant@,
    {
        let mpz = self.mpz.with_discriminant(discriminant);
        let gen = self.gen.with_discriminant(discriminant);
        *self = SanityGroup { mpz, gen };
        true
    }

    /// Sets the discriminant.
    pub fn set_discriminant_i64(&mut self, discriminant: i64)
        ensures
            final(self).discriminant() == discriminant,
    {
        let _ = self.set_discriminant_mpz(&Mpz::from_i64(discriminant));
    }

    /// Sets the discriminant from decimal text; `false`, and no change, where
    /// the text is no integer.
    pub fn set_discriminant_str(&mut self, discriminant: &str) -> (r: bool)
        ensures
            r == read_decimal(discriminant@) is Some,
            final(self).discriminant() == if r {
                read_decimal(discriminant@).unwrap()
            } else {
                old(self).discriminant()
            },
    {
        if crate::radix::contains_nul(discriminant) {
            return false;
        }
        match crate::radix::parse_text(discriminant, 10) {
            None => false,
            Some(v) => self.set_discriminant_mpz(&v),
        }
    }

    /// A new form `(0, 0, 0)`.
    pub fn new_form(&self) -> (r: Option<SanityForm>)
        ensures
            r matches Some(f) && f.mpz_view() == (IntForm { a: 0, b: 0, c: 0 }) && f.agrees(
                self.discriminant(),
            ),
    {
        self.facts();
        Some(SanityForm { mpz: MpzForm::zero(), gen: GenForm::zero() })
    }

    /// Sets a form to the principal form.
    pub fn set_id(&self, form: &mut SanityForm)
        ensures
            final(form).mpz_view() == identity(self.discriminant()),
            final(form).agrees(self.discriminant()),
    {
        self.facts();
        self.mpz.set_id(&mut form.mpz);
        self.gen.set_id(&mut form.gen);
    }

    /// The principal form.
    pub fn identity(&self) -> (r: Option<SanityForm>)
        ensures
            r matches Some(f) && f.mpz_view() == identity(self.discriminant()) && f.agrees(
                self.discriminant(),
            ),
    {
        let mut f = SanityForm { mpz: MpzForm::zero(), gen: GenForm::zero() };
        self.set_id(&mut f);
        Some(f)
    }

    /// Clears a form to `(0, 0, 0)`.
    pub fn clear_form(&self, form: &mut SanityForm)
        ensures
            final(form).mpz_view() == (IntForm { a: 0, b: 0, c: 0 }),
            final(form).agrees(self.discriminant()),
    {
        self.facts();
        *form = SanityForm { mpz: MpzForm::zero(), gen: GenForm::zero() };
    }

    /// The hash of a form.
    pub fn hash32(&self, form: &SanityForm) -> (r: u32)
        ensures
            r == hash32(form.mpz_view()),
    {
        self.mpz.hash32(&form.mpz)
    }

    /// The decimal texts of the coefficients.
    pub fn coefficients(&self, form: &SanityForm) -> (r: Option<(String, String, String)>)
        ensures
            r matches Some((a, b, c)) && a@ == int_text(form.mpz_view().a, 10) && b@ == int_text(
                form.mpz_view().b,
                10,
            ) && c@ == int_text(form.mpz_view().c, 10),
    {
        self.mpz.coefficients(&form.mpz)
    }

    /// Whether the form has `a == 1`: the principal class.
    pub fn is_id(&self, form: &SanityForm) -> (r: bool)
        ensures
            r == (form.mpz_view().a == 1),
    {
        self.mpz.is_id(&form.mpz)
    }

    /// Whether the (reduced) form is ambiguous.
    pub fn is_ambiguous(&self, form: &SanityForm) -> (r: bool)
        ensures
            r == is_ambiguous(form.mpz_view()),
    {
        self.mpz.is_ambiguous(&form.mpz)
    }

    /// Whether two forms have the same coefficients.
    pub fn equal(&self, a: &SanityForm, b: &SanityForm) -> (r: bool)
        ensures
            r == (a.mpz_view() == b.mpz_view()),
    {
        self.mpz.equal(&a.mpz, &b.mpz)
    }

    /// Copies a form.
    pub fn set(&self, dst: &mut SanityForm, src: &SanityForm)
        requires
            src.agrees(self.discriminant()),
        ensures
            final(dst).mpz_view() == src.mpz_view(),
            final(dst).agrees(self.discriminant()),
    {
        self.facts();
        self.mpz.set(&mut dst.mpz, &src.mpz);
        self.gen.set(&mut dst.gen, &src.gen);
    }

    /// Inverts a form: `(a, -b, c)`.
    pub fn inverse(&self, form: &mut SanityForm)
        requires
            old(form).agrees(self.discriminant()),
            backend_of(self.discriminant()) == GenBackend::S64 ==> old(form).mpz_view().b
                > i32::MIN,
            backend_of(self.discriminant()) == GenBackend::S128 ==> old(form).mpz_view().b
                > i64::MIN,
        ensures
            final(form).mpz_view() == inverse(old(form).mpz_view()),
            final(form).agrees(self.discriminant()),
    {
        self.facts();
        self.mpz.inverse(&mut form.mpz);
        self.gen.inverse(&mut form.gen);
    }

    /// Reduces a form of the group.
    pub fn reduce(&self, form: &mut SanityForm)
        requires
            is_form(self.discriminant(), old(form).mpz_view()),
            old(form).agrees(self.discriminant()),
        ensures
            final(form).mpz_view() == reduce(old(form).mpz_view()),
            final(form).agrees(self.discriminant()),
    {
        self.facts();
        self.mpz.reduce(&mut form.mpz);
        self.gen.reduce(&mut form.gen);
    }

    /// Composes two forms of the group.
    pub fn compose(&self, out: &mut SanityForm, a: &SanityForm, b: &SanityForm)
        requires
            backend_of(self.discriminant()) != GenBackend::Mpz ==> self.discriminant() < 0,
            is_form(self.discriminant(), a.mpz_view()),
            is_form(self.discriminant(), b.mpz_view()),
            a.agrees(self.discriminant()),
            b.agrees(self.discriminant()),
        ensures
            final(out).mpz_view() == compose(a.mpz_view(), b.mpz_view()),
            final(out).agrees(self.discriminant()),
    {
        self.facts();
        self.mpz.compose(&mut out.mpz, &a.mpz, &b.mpz);
        self.gen.compose(&mut out.gen, &a.gen, &b.gen);
    }

    /// Squares a form of the group.
    pub fn square(&self, out: &mut SanityForm, a: &SanityForm)
        requires
            backend_of(self.discriminant()) != GenBackend::Mpz ==> self.discriminant() < 0,
            is_form(self.discriminant(), a.mpz_view()),
            a.agrees(self.discriminant()),
        ensures
            final(out).mpz_view() == square(a.mpz_view()),
            final(out).agrees(self.discriminant()),
    {
        self.facts();
        self.mpz.square(&mut out.mpz, &a.mpz);
        self.gen.square(&mut out.gen, &a.gen);
    }

    /// Cubes a form of the group.
    pub fn cube(&self, out: &mut SanityForm, a: &SanityForm)
        requires
            backend_of(self.discriminant()) != GenBackend::Mpz ==> self.discriminant() < 0,
            is_form(self.discriminant(), a.mpz_view()),
            a.agrees(self.discriminant()),
        ensures
            final(out).mpz_view() == cube(a.mpz_view()),
            final(out).agrees(self.discriminant()),
    {
        self.facts();
        self.mpz.cube(&mut out.mpz, &a.mpz);
        self.gen.cube(&mut out.gen, &a.gen);
    }

    /// Sets the form to the prime form of `p` where there is one; the form
    /// stays as it was where there is none.
    pub fn is_primeform(&self, form: &mut SanityForm, p: i32) -> (r: bool)
        requires
            old(form).agrees(self.discriminant()),
        ensures
            r == prime_form(self.discriminant(), p as int) is Some,
            final(form).mpz_view() == if r {
                prime_form(self.discriminant(), p as int).unwrap()
            } else {
                old(form).mpz_view()
            },
            final(form).agrees(self.discriminant()),
    {
        self.facts();
        let r = self.mpz.is_primeform(&mut form.mpz, p);
        let r2 = self.gen.is_primeform(&mut form.gen, p);
        assert(r == r2);
        r
    }

    /// The prime form of `p`, where there is one.
    pub fn prime_form(&self, p: i32) -> (r: Option<SanityForm>)
        ensures
            match r {
                Some(f) => prime_form(self.discriminant(), p as int) == Some(f.mpz_view())
                    && f.agrees(self.discriminant()),
                None => prime_form(self.discriminant(), p as int) is None,
            },
    {
        self.facts();
        let mut f = SanityForm { mpz: MpzForm::zero(), gen: GenForm::zero() };
        if self.is_primeform(&mut f, p) {
            Some(f)
        } else {
            None
        }
    }

    /// A prime form of a randomly chosen prime of the table; `None` where no
    /// prime of the table has one.
    pub fn random_prime_form(&self) -> (r: Option<SanityForm>)
        ensures
            r is None <==> next_prime_index(self.discriminant(), prime_list(), 0) is None,
            r matches Some(f) ==> f.agrees(self.discriminant()) && exists|i: int|
                0 <= i < prime_list().len() && prime_form(
                    self.discriminant(),
                    #[trigger] prime_list()[i] as int,
                ) == Some(f.mpz_view()),
    {
        self.facts();
        proof {
            lemma_prime_table_small();
        }
        let table = self.mpz.primes();
        let d = self.d_mpz();
        match random_prime_search(&d, table) {
            Some((i, _)) => {
                let mut f = SanityForm { mpz: MpzForm::zero(), gen: GenForm::zero() };
                let ok = self.is_primeform(&mut f, table[i as usize] as i32);
                assert(ok);
                Some(f)
            },
            None => None,
        }
    }

    fn d_mpz(&self) -> (r: Mpz)
        ensures
            r@ == self.discriminant(),
    {
        let m = self.mpz.discriminant_value();
        m
    }

    /// The prime form of the first prime of the table, from index
    /// `prime_index` on, that has one, with that prime's index.
    pub fn next_prime_form(&self, prime_index: i32) -> (r: Option<(i32, SanityForm)>)
        ensures
            match r {
                Some((i, f)) => next_prime_index(self.discriminant(), prime_list(), prime_index as int)
                    == Some(i as int) && prime_form(self.discriminant(), prime_list()[i as int] as int)
                    == Some(f.mpz_view()) && f.agrees(self.discriminant()),
                None => next_prime_index(self.discriminant(), prime_list(), prime_index as int) is None,
            },
    {
        self.facts();
        match self.mpz.next_prime_form(prime_index) {
            Some((i, _)) => {
                proof {
                    lemma_next_prime_index(self.discriminant(), prime_list(), prime_index as int);
                    lemma_prime_table_small();
                }
                let table = self.mpz.primes();
                let mut f = SanityForm { mpz: MpzForm::zero(), gen: GenForm::zero() };
                let ok = self.is_primeform(&mut f, table[i as usize] as i32);
                assert(ok);
                Some((i, f))
            },
            None => None,
        }
    }

    /// The `exp`-th power of a form of the group.
    pub fn pow_u32(&self, base: &SanityForm, exp: u32) -> (r: Option<SanityForm>)
        requires
            backend_of(self.discriminant()) != GenBackend::Mpz ==> self.discriminant() < 0,
            is_form(self.discriminant(), base.mpz_view()),
            base.agrees(self.discriminant()),
        ensures
            r matches Some(f) && f.mpz_view() == pow(self.discriminant(), base.mpz_view(), exp as nat)
                && f.agrees(self.discriminant()),
    {
        self.facts();
        match (self.mpz.pow_u32(&base.mpz, exp), self.gen.pow_u32(&base.gen, exp)) {
            (Some(m), Some(g)) => Some(SanityForm { mpz: m, gen: g }),
            _ => None,
        }
    }

    /// The factor of `n` that an ambiguous form gives, as decimal text.
    pub fn split_ambiguous_str(&self, form: &SanityForm, n: &str) -> (r: Option<String>)
        ensures
            match r {
                Some(t) => split_text(form.mpz_view(), n@) matches Some(g) && t@ == int_text(g, 10),
                None => split_text(form.mpz_view(), n@) is None,
            },
    {
        self.mpz.split_ambiguous_str(&form.mpz, n)
    }

    /// The factor of `n` that an ambiguous form gives.
    pub fn split_ambiguous_mpz(&self, form: &SanityForm, n: &Mpz) -> (r: Option<Mpz>)
        ensures
            match r {
                Some(g) => split_factor(form.mpz_view(), n@) == Some(g@),
                None => split_factor(form.mpz_view(), n@) is None,
            },
    {
        self.mpz.split_ambiguous_mpz(&form.mpz, n)
    }
}

} // verus!
