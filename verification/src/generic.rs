//! The class group that picks its arithmetic by the size of the
//! discriminant: 64-bit forms, 128-bit forms, or forms of any size.

use crate::algo::{
    compose_exec, equal_exec, hash32_exec, identity_exec, inverse_exec, is_ambiguous_exec,
    is_id_exec, lemma_pow_form, next_prime_exec, pow_exec, prime_form_exec,
    random_prime_search, reduce_exec, split_exec, MpzForm,
};
use crate::form::{
    compose, cube, hash32, identity, inverse, is_ambiguous, is_form, lemma_compose_form,
    lemma_next_prime_index, next_prime_index, pow, prime_form, reduce,
    split_factor, square, IntForm,
};
use crate::mpz::{abs, Mpz};
use crate::mpz_group::{
    coefficient_texts, lemma_prime_table_small, set_coefficients_from_texts, set_from_texts,
    split_text,
};
use crate::primes::{prime_list, prime_table};
use crate::radix::{contains_nul, int_text, parse_text, read_decimal};
use crate::s128::{S128Form, S128Group};
use crate::s64::{S64Form, S64Group};
use vstd::prelude::*;

verus! {

/// The largest number of bits of a discriminant that 64-bit forms serve.
pub const S64_MAX_BITS: u32 = 59;

/// The largest number of bits of a discriminant that 128-bit forms serve.
pub const S128_MAX_BITS: u32 = 118;

/// The arithmetic that a group uses.
#[derive(Debug, Clone, Copy, PartialEq, Eq, Structural)]
pub enum GenBackend {
    S64,
    S128,
    Mpz,
}

/// The coefficients of a form in the arithmetic of its group.
#[derive(Debug, Clone, PartialEq, Eq)]
pub enum GenCoefficients {
    S64(S64Form),
    S128(S128Form),
    Mpz { a: String, b: String, c: String },
}

/// The arithmetic for a discriminant: 64-bit forms while `|d|` has at most
/// 59 bits, 128-bit forms while it has at most 118, else forms of any size.
pub open spec fn backend_of(d: int) -> GenBackend {
    if abs(d) < 0x800_0000_0000_0000 {
        GenBackend::S64
    } else if abs(d) < 0x40_0000_0000_0000_0000_0000_0000_0000 {
        GenBackend::S128
    } else {
        GenBackend::Mpz
    }
}

/// A form that holds one slot for each arithmetic; the group's arithmetic
/// works on its own slot.
pub struct GenForm {
    s64: S64Form,
    s128: S128Form,
    mpz: MpzForm,
}

impl GenForm {
    /// The slot of 64-bit coefficients.
    pub closed spec fn s64_view(&self) -> IntForm {
        self.s64@
    }

    /// The slot of 128-bit coefficients.
    pub closed spec fn s128_view(&self) -> IntForm {
        self.s128@
    }

    /// The slot of coefficients of any size.
    pub closed spec fn mpz_view(&self) -> IntForm {
        self.mpz@
    }

    /// The slot that an arithmetic works on.
    pub open spec fn slot(&self, b: GenBackend) -> IntForm {
        match b {
            GenBackend::S64 => self.s64_view(),
            GenBackend::S128 => self.s128_view(),
            GenBackend::Mpz => self.mpz_view(),
        }
    }

    /// All slots zero.
    pub fn zero() -> (r: GenForm)
        ensures
            r.s64_view() == (IntForm { a: 0, b: 0, c: 0 }),
            r.s128_view() == (IntForm { a: 0, b: 0, c: 0 }),
            r.mpz_view() == (IntForm { a: 0, b: 0, c: 0 }),
    {
        GenForm {
            s64: S64Form { a: 0, b: 0, c: 0 },
            s128: S128Form { a: 0, b: 0, c: 0 },
            mpz: MpzForm::zero(),
        }
    }
}

/// The form after a write to the slot of an arithmetic: that slot is `f`,
/// the others are as they were.
pub open spec fn slot_written(old: GenForm, new: GenForm, b: GenBackend, f: IntForm) -> bool {
    &&& new.slot(b) == f
    &&& b != GenBackend::S64 ==> new.s64_view() == old.s64_view()
    &&& b != GenBackend::S128 ==> new.s128_view() == old.s128_view()
    &&& b != GenBackend::Mpz ==> new.mpz_view() == old.mpz_view()
}

/// The class group of a negative discriminant of any size, with the
/// arithmetic that its size calls for.
pub struct GenGroup {
    d: Mpz,
    primes: Vec<u32>,
}

impl GenGroup {
    /// The group holds the prime table.
    #[verifier::type_invariant]
    spec fn inv(self) -> bool {
        self.primes@ == prime_list()
    }

    /// The discriminant.
    pub closed spec fn discriminant(&self) -> int {
        self.d@
    }

    /// The arithmetic of the group.
    pub open spec fn backend_spec(&self) -> GenBackend {
        backend_of(self.discriminant())
    }

    /// The group of a discriminant.
    pub fn new_mpz(discriminant: &Mpz) -> (r: Option<GenGroup>)
        ensures
            r matches Some(g) && g.discriminant() == discriminant@,
    {
        Some(GenGroup { d: discriminant.copy(), primes: prime_table() })
    }

    /// The group of another discriminant, with this group's prime table.
    pub(crate) fn with_discriminant(&self, discriminant: &Mpz) -> (r: GenGroup)
        ensures
            r.discriminant() == discriminant@,
    {
        proof {
            use_type_invariant(self);
        }
        let primes = self.primes.clone();
        assert(primes@ == self.primes@);
        GenGroup { d: discriminant.copy(), primes }
    }

    /// The group of a discriminant given as an `i64`.
    pub fn new_i64(discriminant: i64) -> (r: Option<GenGroup>)
        ensures
            r matches Some(g) && g.discriminant() == discriminant,
    {
        GenGroup::new_mpz(&Mpz::from_i64(discriminant))
    }

    /// The group of a discriminant given as an `i128`.
    pub fn new_i128(discriminant: i128) -> (r: Option<GenGroup>)
        ensures
            r matches Some(g) && g.discriminant() == discriminant,
    {
        GenGroup::new_mpz(&Mpz::from_i128(discriminant))
    }

    /// The group of a discriminant given as decimal text; `None` where the
    /// text is no integer.
    pub fn new_str(discriminant: &str) -> (r: Option<GenGroup>)
        ensures
            r is Some <==> read_decimal(discriminant@) is Some,
            r matches Some(g) ==> read_decimal(discriminant@) == Some(g.discriminant()),
    {
        if contains_nul(discriminant) {
            return None;
        }
        match parse_text(discriminant, 10) {
            None => None,
            Some(v) => GenGroup::new_mpz(&v),
        }
    }

    /// Sets the discriminant; always `true`.
    pub fn set_discriminant_mpz(&mut self, discriminant: &Mpz) -> (r: bool)
        ensures
            r,
            final(self).discriminant() == discriminant@,
    {
        proof {
            use_type_invariant(&*self);
        }
        self.d = discriminant.copy();
        true
    }

    /// Sets the discriminant.
    pub fn set_discriminant_i64(&mut self, discriminant: i64)
        ensures
            final(self).discriminant() == discriminant,
    {
        proof {
            use_type_invariant(&*self);
        }
        self.d = Mpz::from_i64(discriminant);
    }

    /// Sets the discriminant.
    pub fn set_discriminant_i128(&mut self, discriminant: i128)
        ensures
            final(self).discriminant() == discriminant,
    {
        proof {
            use_type_invariant(&*self);
        }
        self.d = Mpz::from_i128(discriminant);
    }

    /// Sets the discriminant from decimal text; `false`, and no change, where
    /// the text is no integer.
    pub fn set_discriminant_str(&mut self, discriminant: &str) -> (r: bool)
        ensures
            r == read_decimal(discriminant@) is Some,
            final(self).discriminant() == if r {
                read_decimal(discriminant@).unwrap()
            } else {
                old(self).discriminant()
            },
    {
        if contains_nul(discriminant) {
            return false;
        }
        match parse_text(discriminant, 10) {
            None => false,
            Some(v) => self.set_discriminant_mpz(&v),
        }
    }

    /// The arithmetic of the group.
    pub fn backend(&self) -> (r: GenBackend)
        ensures
            r == self.backend_spec(),
    {
        let m = self.d.abs();
        if m.lt(&Mpz::from_i64(0x800_0000_0000_0000)) {
            GenBackend::S64
        } else if m.lt(&Mpz::from_i128(0x40_0000_0000_0000_0000_0000_0000_0000)) {
            GenBackend::S128
        } else {
            GenBackend::Mpz
        }
    }

    fn s64_group(&self) -> (r: S64Group)
        requires
            self.backend_spec() == GenBackend::S64,
        ensures
            r.discriminant() == self.discriminant(),
    {
        S64Group::from_disc(self.d.to_i64())
    }

    fn s128_group(&self) -> (r: S128Group)
        requires
            self.backend_spec() == GenBackend::S128,
        ensures
            r.discriminant() == self.discriminant(),
    {
        S128Group::from_disc(self.d.to_i128())
    }

    fn disc_mpz(&self) -> (r: &Mpz)
        ensures
            r@ == self.discriminant(),
    {
        &self.d
    }

    /// A new form, all slots zero.
    pub fn new_form(&self) -> (r: Option<GenForm>)
        ensures
            r matches Some(f) && f.s64_view() == (IntForm { a: 0, b: 0, c: 0 }) && f.s128_view()
                == (IntForm { a: 0, b: 0, c: 0 }) && f.mpz_view() == (IntForm { a: 0, b: 0, c: 0 }),
    {
        Some(GenForm::zero())
    }

    /// Sets the slot of the group's arithmetic to the principal form.
    pub fn set_id(&self, form: &mut GenForm)
        ensures
            slot_written(*old(form), *final(form), self.backend_spec(), identity(self.discriminant())),
    {
        match self.backend() {
            GenBackend::S64 => {
                form.s64 = self.s64_group().identity();
            },
            GenBackend::S128 => {
                form.s128 = self.s128_group().identity();
            },
            GenBackend::Mpz => {
                form.mpz = identity_exec(self.disc_mpz());
            },
        }
    }

    /// A new form whose slot of the group's arithmetic holds the principal form.
    pub fn identity(&self) -> (r: Option<GenForm>)
        ensures
            r matches Some(f) && f.slot(self.backend_spec()) == identity(self.discriminant()),
    {
        let mut f = GenForm::zero();
        self.set_id(&mut f);
        Some(f)
    }

    /// Clears all slots of a form to zero.
    pub fn clear_form(&self, form: &mut GenForm)
        ensures
            final(form).s64_view() == (IntForm { a: 0, b: 0, c: 0 }),
            final(form).s128_view() == (IntForm { a: 0, b: 0, c: 0 }),
            final(form).mpz_view() == (IntForm { a: 0, b: 0, c: 0 }),
    {
        *form = GenForm::zero();
    }

    /// The hash of the form in the group's slot.
    pub fn hash32(&self, form: &GenForm) -> (r: u32)
        ensures
            r == hash32(form.slot(self.backend_spec())),
    {
        match self.backend() {
            GenBackend::S64 => self.s64_group().hash32(&form.s64),
            GenBackend::S128 => self.s128_group().hash32(&form.s128),
            GenBackend::Mpz => hash32_exec(&form.mpz),
        }
    }

    /// Whether the form in the group's slot has `a == 1`.
    pub fn is_id(&self, form: &GenForm) -> (r: bool)
        ensures
            r == (form.slot(self.backend_spec()).a == 1),
    {
        match self.backend() {
            GenBackend::S64 => form.s64.a == 1,
            GenBackend::S128 => form.s128.a == 1,
            GenBackend::Mpz => is_id_exec(&form.mpz),
        }
    }

    /// Whether the form in the group's slot is ambiguous.
    pub fn is_ambiguous(&self, form: &GenForm) -> (r: bool)
        ensures
            r == is_ambiguous(form.slot(self.backend_spec())),
    {
        match self.backend() {
            GenBackend::S64 => self.s64_group().is_ambiguous(&form.s64),
            GenBackend::S128 => self.s128_group().is_ambiguous(&form.s128),
            GenBackend::Mpz => is_ambiguous_exec(&form.mpz),
        }
    }

    /// Whether the forms in the group's slot have the same coefficients.
    pub fn equal(&self, a: &GenForm, b: &GenForm) -> (r: bool)
        ensures
            r == (a.slot(self.backend_spec()) == b.slot(self.backend_spec())),
    {
        match self.backend() {
            GenBackend::S64 => self.s64_group().equal(&a.s64, &b.s64),
            GenBackend::S128 => self.s128_group().equal(&a.s128, &b.s128),
            GenBackend::Mpz => equal_exec(&a.mpz, &b.mpz),
        }
    }

    /// Copies the form in the group's slot.
    pub fn set(&self, dst: &mut GenForm, src: &GenForm)
        ensures
            slot_written(*old(dst), *final(dst), self.backend_spec(), src.slot(self.backend_spec())),
    {
        match self.backend() {
            GenBackend::S64 => {
                dst.s64 = src.s64;
            },
            GenBackend::S128 => {
                dst.s128 = src.s128;
            },
            GenBackend::Mpz => {
                dst.mpz = src.mpz.copy();
            },
        }
    }

    /// Inverts the form in the group's slot: `(a, -b, c)`.
    pub fn inverse(&self, form: &mut GenForm)
        requires
            self.backend_spec() == GenBackend::S64 ==> old(form).s64_view().b > i32::MIN,
            self.backend_spec() == GenBackend::S128 ==> old(form).s128_view().b > i64::MIN,
        ensures
            slot_written(
                *old(form),
                *final(form),
                self.backend_spec(),
                inverse(old(form).slot(self.backend_spec())),
            ),
    {
        match self.backend() {
            GenBackend::S64 => {
                form.s64.b = -form.s64.b;
            },
            GenBackend::S128 => {
                form.s128.b = -form.s128.b;
            },
            GenBackend::Mpz => {
                form.mpz = inverse_exec(&form.mpz);
            },
        }
    }

    /// Reduces the form in the group's slot.
    pub fn reduce(&self, form: &mut GenForm)
        requires
            is_form(self.discriminant(), old(form).slot(self.backend_spec())),
        ensures
            slot_written(
                *old(form),
                *final(form),
                self.backend_spec(),
                reduce(old(form).slot(self.backend_spec())),
            ),
    {
        match self.backend() {
            GenBackend::S64 => {
                let g = self.s64_group();
                g.reduce(&mut form.s64);
            },
            GenBackend::S128 => {
                let g = self.s128_group();
                g.reduce(&mut form.s128);
            },
            GenBackend::Mpz => {
                form.mpz = reduce_exec(&form.mpz);
            },
        }
    }

    /// Composes the forms in the group's slot.
    pub fn compose(&self, out: &mut GenForm, a: &GenForm, b: &GenForm)
        requires
            self.backend_spec() != GenBackend::Mpz ==> self.discriminant() < 0,
            is_form(self.discriminant(), a.slot(self.backend_spec())),
            is_form(self.discriminant(), b.slot(self.backend_spec())),
        ensures
            slot_written(
                *old(out),
                *final(out),
                self.backend_spec(),
                compose(a.slot(self.backend_spec()), b.slot(self.backend_spec())),
            ),
    {
        match self.backend() {
            GenBackend::S64 => {
                out.s64 = self.s64_group().compose(&a.s64, &b.s64);
            },
            GenBackend::S128 => {
                out.s128 = self.s128_group().compose(&a.s128, &b.s128);
            },
            GenBackend::Mpz => {
                out.mpz = compose_exec(&a.mpz, &b.mpz);
            },
        }
    }

    /// Squares the form in the group's slot.
    pub fn square(&self, out: &mut GenForm, a: &GenForm)
        requires
            self.backend_spec() != GenBackend::Mpz ==> self.discriminant() < 0,
            is_form(self.discriminant(), a.slot(self.backend_spec())),
        ensures
            slot_written(
                *old(out),
                *final(out),
                self.backend_spec(),
                square(a.slot(self.backend_spec())),
            ),
    {
        self.compose(out, a, a);
    }

    /// Cubes the form in the group's slot.
    pub fn cube(&self, out: &mut GenForm, a: &GenForm)
        requires
            self.backend_spec() != GenBackend::Mpz ==> self.discriminant() < 0,
            is_form(self.discriminant(), a.slot(self.backend_spec())),
        ensures
            slot_written(
                *old(out),
                *final(out),
                self.backend_spec(),
                cube(a.slot(self.backend_spec())),
            ),
    {
        match self.backend() {
            GenBackend::S64 => {
                out.s64 = self.s64_group().cube(&a.s64);
            },
            GenBackend::S128 => {
                out.s128 = self.s128_group().cube(&a.s128);
            },
            GenBackend::Mpz => {
                proof {
                            lemma_compose_form(self.discriminant(), a.mpz@, a.mpz@);
                }
                let sq = compose_exec(&a.mpz, &a.mpz);
                out.mpz = compose_exec(&sq, &a.mpz);
            },
        }
    }

    /// Sets the group's slot to the prime form of `p` where there is one;
    /// the form stays as it was where there is none.
    pub fn is_primeform(&self, form: &mut GenForm, p: i32) -> (r: bool)
        ensures
            r == prime_form(self.discriminant(), p as int) is Some,
            r ==> slot_written(
                *old(form),
                *final(form),
                self.backend_spec(),
                prime_form(self.discriminant(), p as int).unwrap(),
            ),
            !r ==> *final(form) == *old(form),
    {
        match self.backend() {
            GenBackend::S64 => match self.s64_group().prime_form(p) {
                Some(f) => {
                    form.s64 = f;
                    true
                },
                None => false,
            },
            GenBackend::S128 => match self.s128_group().prime_form(p) {
                Some(f) => {
                    form.s128 = f;
                    true
                },
                None => false,
            },
            GenBackend::Mpz => match prime_form_exec(self.disc_mpz(), p) {
                Some(f) => {
                    form.mpz = f;
                    true
                },
                None => false,
            },
        }
    }

    /// A new form whose group's slot holds the prime form of `p`, where
    /// there is one.
    pub fn prime_form(&self, p: i32) -> (r: Option<GenForm>)
        ensures
            match r {
                Some(f) => prime_form(self.discriminant(), p as int) == Some(
                    f.slot(self.backend_spec()),
                ),
                None => prime_form(self.discriminant(), p as int) is None,
            },
    {
        let mut f = GenForm::zero();
        if self.is_primeform(&mut f, p) {
            Some(f)
        } else {
            None
        }
    }

    /// A new form whose group's slot holds the prime form of the first prime
    /// of the table, from index `prime_index` on, that has one, with that
    /// prime's index.
    pub fn next_prime_form(&self, prime_index: i32) -> (r: Option<(i32, GenForm)>)
        ensures
            match r {
                Some((i, f)) => next_prime_index(self.discriminant(), prime_list(), prime_index as int)
                    == Some(i as int) && prime_form(self.discriminant(), prime_list()[i as int] as int)
                    == Some(f.slot(self.backend_spec())),
                None => next_prime_index(self.discriminant(), prime_list(), prime_index as int) is None,
            },
    {
        proof {
            use_type_invariant(self);
            lemma_prime_table_small();
            lemma_next_prime_index(self.discriminant(), prime_list(), prime_index as int);
        }
        let table = &self.primes;
        match next_prime_exec(self.disc_mpz(), table, prime_index) {
            Some((i, _)) => {
                let mut f = GenForm::zero();
                let ok = self.is_primeform(&mut f, table[i as usize] as i32);
                assert(ok);
                Some((i, f))
            },
            None => None,
        }
    }

    /// A new form whose group's slot holds a prime form of a randomly chosen
    /// prime of the table; `None` where no prime of the table has one.
    pub fn random_prime_form(&self) -> (r: Option<GenForm>)
        ensures
            r is None <==> next_prime_index(self.discriminant(), prime_list(), 0) is None,
            r matches Some(f) ==> exists|i: int|
                0 <= i < prime_list().len() && prime_form(
                    self.discriminant(),
                    #[trigger] prime_list()[i] as int,
                ) == Some(f.slot(self.backend_spec())),
    {
        proof {
            use_type_invariant(self);
            lemma_prime_table_small();
        }
        let table = &self.primes;
        let r = random_prime_search(self.disc_mpz(), table);
        match r {
            Some((i, _)) => {
                let mut f = GenForm::zero();
                let ok = self.is_primeform(&mut f, table[i as usize] as i32);
                assert(ok);
                Some(f)
            },
            None => None,
        }
    }

    /// A new form whose group's slot holds the `exp`-th power of the form in
    /// the group's slot of `base`.
    pub fn pow_u32(&self, base: &GenForm, exp: u32) -> (r: Option<GenForm>)
        requires
            self.backend_spec() != GenBackend::Mpz ==> self.discriminant() < 0,
            is_form(self.discriminant(), base.slot(self.backend_spec())),
        ensures
            r matches Some(f) && f.slot(self.backend_spec()) == pow(
                self.discriminant(),
                base.slot(self.backend_spec()),
                exp as nat,
            ),
    {
        let mut f = GenForm::zero();
        match self.backend() {
            GenBackend::S64 => {
                f.s64 = self.s64_group().pow_u32(&base.s64, exp);
            },
            GenBackend::S128 => {
                f.s128 = self.s128_group().pow_u32(&base.s128, exp);
            },
            GenBackend::Mpz => {
                proof {
                        }
                f.mpz = pow_exec(self.disc_mpz(), &base.mpz, exp);
            },
        }
        Some(f)
    }

    /// The factor of `n` that the ambiguous form in the group's slot gives,
    /// as decimal text.
    pub fn split_ambiguous_str(&self, form: &GenForm, n: &str) -> (r: Option<String>)
        ensures
            match r {
                Some(t) => split_text(form.slot(self.backend_spec()), n@) matches Some(g) && t@
                    == int_text(g, 10),
                None => split_text(form.slot(self.backend_spec()), n@) is None,
            },
    {
        match self.backend() {
            GenBackend::S64 => self.s64_group().split_ambiguous_str(&form.s64, n),
            GenBackend::S128 => self.s128_group().split_ambiguous_str(&form.s128, n),
            GenBackend::Mpz => {
                if contains_nul(n) {
                    return None;
                }
                match parse_text(n, 10) {
                    None => None,
                    Some(v) => match split_exec(&form.mpz, &v) {
                        None => None,
                        Some(g) => Some(g.to_string_radix(10)),
                    },
                }
            },
        }
    }

    /// The factor of `n` that the ambiguous form in the group's slot gives.
    pub fn split_ambiguous_mpz(&self, form: &GenForm, n: &Mpz) -> (r: Option<Mpz>)
        ensures
            match r {
                Some(g) => split_factor(form.slot(self.backend_spec()), n@) == Some(g@),
                None => split_factor(form.slot(self.backend_spec()), n@) is None,
            },
    {
        match self.backend() {
            GenBackend::S64 => self.s64_group().split_ambiguous_mpz(&form.s64, n),
            GenBackend::S128 => self.s128_group().split_ambiguous_mpz(&form.s128, n),
            GenBackend::Mpz => split_exec(&form.mpz, n),
        }
    }

    /// Writes the 64-bit slot, where the group uses 64-bit forms.
    pub fn set_from_s64(&self, form: &mut GenForm, value: S64Form) -> (r: bool)
        ensures
            r == (self.backend_spec() == GenBackend::S64),
            r ==> slot_written(*old(form), *final(form), GenBackend::S64, value@),
            !r ==> *final(form) == *old(form),
    {
        if self.backend() != GenBackend::S64 {
            return false;
        }
        form.s64 = value;
        true
    }

    /// The 64-bit slot, where the group uses 64-bit forms.
    pub fn get_s64(&self, form: &GenForm) -> (r: Option<S64Form>)
        ensures
            r is Some <==> self.backend_spec() == GenBackend::S64,
            r matches Some(f) ==> f@ == form.s64_view(),
    {
        if self.backend() != GenBackend::S64 {
            return None;
        }
        Some(form.s64)
    }

    /// Writes the 128-bit slot, where the group uses 128-bit forms.
    pub fn set_from_s128(&self, form: &mut GenForm, value: S128Form) -> (r: bool)
        ensures
            r == (self.backend_spec() == GenBackend::S128),
            r ==> slot_written(*old(form), *final(form), GenBackend::S128, value@),
            !r ==> *final(form) == *old(form),
    {
        if self.backend() != GenBackend::S128 {
            return false;
        }
        form.s128 = value;
        true
    }

    /// The 128-bit slot, where the group uses 128-bit forms.
    pub fn get_s128(&self, form: &GenForm) -> (r: Option<S128Form>)
        ensures
            r is Some <==> self.backend_spec() == GenBackend::S128,
            r matches Some(f) ==> f@ == form.s128_view(),
    {
        if self.backend() != GenBackend::S128 {
            return None;
        }
        Some(form.s128)
    }

    /// Writes the coefficients of the slot of any size from decimal texts,
    /// one after the other, where the group uses forms of any size; `false`
    /// at the first text that is no integer.
    pub fn set_from_mpz_strings(&self, form: &mut GenForm, a: &str, b: &str, c: &str) -> (r: bool)
        ensures
            self.backend_spec() != GenBackend::Mpz ==> !r && *final(form) == *old(form),
            self.backend_spec() == GenBackend::Mpz ==> {
                &&& (r, final(form).mpz_view()) == set_from_texts(old(form).mpz_view(), a@, b@, c@)
                &&& final(form).s64_view() == old(form).s64_view()
                &&& final(form).s128_view() == old(form).s128_view()
            },
    {
        if self.backend() != GenBackend::Mpz {
            return false;
        }
        set_coefficients_from_texts(&mut form.mpz, a, b, c)
    }

    /// Writes the coefficients of the slot of any size, where the group
    /// uses forms of any size.
    pub fn set_from_mpz(&self, form: &mut GenForm, a: &Mpz, b: &Mpz, c: &Mpz) -> (r: bool)
        ensures
            r == (self.backend_spec() == GenBackend::Mpz),
            r ==> slot_written(
                *old(form),
                *final(form),
                GenBackend::Mpz,
                IntForm { a: a@, b: b@, c: c@ },
            ),
            !r ==> *final(form) == *old(form),
    {
        if self.backend() != GenBackend::Mpz {
            return false;
        }
        form.mpz = MpzForm::from_coefficients(a.copy(), b.copy(), c.copy());
        true
    }

    /// The decimal texts of the slot of any size, where the group uses forms
    /// of any size.
    pub fn mpz_coefficients(&self, form: &GenForm) -> (r: Option<(String, String, String)>)
        ensures
            r is Some <==> self.backend_spec() == GenBackend::Mpz,
            r matches Some((a, b, c)) ==> a@ == int_text(form.mpz_view().a, 10) && b@ == int_text(
                form.mpz_view().b,
                10,
            ) && c@ == int_text(form.mpz_view().c, 10),
    {
        if self.backend() != GenBackend::Mpz {
            return None;
        }
        Some(coefficient_texts(&form.mpz))
    }

    /// The coefficients of the slot of any size, where the group uses forms
    /// of any size.
    pub fn get_mpz(&self, form: &GenForm) -> (r: Option<(Mpz, Mpz, Mpz)>)
        ensures
            r is Some <==> self.backend_spec() == GenBackend::Mpz,
            r matches Some((a, b, c)) ==> a@ == form.mpz_view().a && b@ == form.mpz_view().b && c@
                == form.mpz_view().c,
    {
        if self.backend() != GenBackend::Mpz {
            return None;
        }
        Some((form.mpz.coeff_a().copy(), form.mpz.coeff_b().copy(), form.mpz.coeff_c().copy()))
    }

    /// The coefficients of the group's slot, in the group's arithmetic.
    pub fn coefficients(&self, form: &GenForm) -> (r: Option<GenCoefficients>)
        ensures
            match r {
                Some(GenCoefficients::S64(f)) => self.backend_spec() == GenBackend::S64 && f@
                    == form.s64_view(),
                Some(GenCoefficients::S128(f)) => self.backend_spec() == GenBackend::S128 && f@
                    == form.s128_view(),
                Some(GenCoefficients::Mpz { a, b, c }) => self.backend_spec() == GenBackend::Mpz
                    && a@ == int_text(form.mpz_view().a, 10) && b@ == int_text(form.mpz_view().b, 10)
                    && c@ == int_text(form.mpz_view().c, 10),
                None => false,
            },
    {
        match self.backend() {
            GenBackend::S64 => match self.get_s64(form) {
                Some(f) => Some(GenCoefficients::S64(f)),
                None => None,
            },
            GenBackend::S128 => match self.get_s128(form) {
                Some(f) => Some(GenCoefficients::S128(f)),
                None => None,
            },
            GenBackend::Mpz => match self.mpz_coefficients(form) {
                Some((a, b, c)) => Some(GenCoefficients::Mpz { a, b, c }),
                None => None,
            },
        }
    }
}

} // verus!
