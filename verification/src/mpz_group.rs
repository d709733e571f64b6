//! The class group of forms whose coefficients are integers of any size.

use crate::algo::{
    compose_exec, equal_exec, hash32_exec, identity_exec, inverse_exec, is_ambiguous_exec,
    is_id_exec, next_prime_exec, pow_exec, prime_form_exec, random_prime_search,
    reduce_exec, split_exec, MpzForm,
};
use crate::form::{
    compose, cube, hash32, identity, inverse, is_ambiguous, is_form, next_prime_index, pow,
    prime_form, reduce, split_factor, square, IntForm, lemma_compose_form,
    lemma_next_prime_index,
};
use crate::mpz::Mpz;
use crate::primes::{prime_list, prime_table, lemma_primes_below, PRIME_BOUND};
use crate::radix::{contains_nul, has_nul, int_text, parse_int, parse_text, read_decimal};
use vstd::prelude::*;

verus! {

/// The outcome of setting three coefficients from decimal texts, one after
/// the other, stopping at the first text that is no integer: whether all
/// three were set, and the form after it.
pub open spec fn set_from_texts(old: IntForm, a: Seq<char>, b: Seq<char>, c: Seq<char>) -> (
    bool,
    IntForm,
) {
    if has_nul(a) || has_nul(b) || has_nul(c) {
        (false, old)
    } else {
        match parse_int(a, 10) {
            None => (false, old),
            Some(va) => match parse_int(b, 10) {
                None => (false, IntForm { a: va, ..old }),
                Some(vb) => match parse_int(c, 10) {
                    None => (false, IntForm { a: va, b: vb, ..old }),
                    Some(vc) => (true, IntForm { a: va, b: vb, c: vc }),
                },
            },
        }
    }
}


/// The factor of the integer of a decimal text that an ambiguous form gives.
pub open spec fn split_text(f: IntForm, n: Seq<char>) -> Option<int> {
    match read_decimal(n) {
        None => None,
        Some(v) => split_factor(f, v),
    }
}

/// Sets the coefficients of a form from decimal texts, as `set_from_texts` says.
pub fn set_coefficients_from_texts(form: &mut MpzForm, a: &str, b: &str, c: &str) -> (r: bool)
    ensures
        (r, final(form)@) == set_from_texts(old(form)@, a@, b@, c@),
{
    if contains_nul(a) || contains_nul(b) || contains_nul(c) {
        return false;
    }
    match parse_text(a, 10) {
        None => false,
        Some(va) => {
            form.set_coeff_a(va);
            match parse_text(b, 10) {
                None => false,
                Some(vb) => {
                    form.set_coeff_b(vb);
                    match parse_text(c, 10) {
                        None => false,
                        Some(vc) => {
                            form.set_coeff_c(vc);
                            true
                        },
                    }
                },
            }
        },
    }
}

/// The decimal texts of the coefficients.
pub fn coefficient_texts(form: &MpzForm) -> (r: (String, String, String))
    ensures
        r.0@ == int_text(form@.a, 10),
        r.1@ == int_text(form@.b, 10),
        r.2@ == int_text(form@.c, 10),
{
    (
        form.coeff_a().to_string_radix(10),
        form.coeff_b().to_string_radix(10),
        form.coeff_c().to_string_radix(10),
    )
}

/// The prime table fits the searches.
pub proof fn lemma_prime_table_small()
    ensures
        prime_list().len() < 0x8000_0000,
        forall|i: int| 0 <= i < prime_list().len() ==> #[trigger] prime_list()[i] < 0x8000_0000,
{
    lemma_primes_below(PRIME_BOUND as int);
    lemma_primes_len(PRIME_BOUND as int);
}

proof fn lemma_primes_len(n: int)
    ensures
        crate::primes::primes_below(n).len() <= if n < 0 {
            0
        } else {
            n
        },
    decreases n,
{
    if n > 2 {
        lemma_primes_len(n - 1);
    }
}

/// The class group of a discriminant, with forms of any size.
pub struct MpzGroup {
    d: Mpz,
    primes: Vec<u32>,
}

impl MpzGroup {
    /// The group holds the prime table.
    #[verifier::type_invariant]
    spec fn inv(self) -> bool {
        self.primes@ == prime_list()
    }

    /// The prime table.
    pub(crate) fn primes(&self) -> (r: &Vec<u32>)
        ensures
            r@ == prime_list(),
    {
        proof {
            use_type_invariant(self);
        }
        &self.primes
    }

    /// The discriminant.
    pub closed spec fn discriminant(&self) -> int {
        self.d@
    }

    /// The discriminant, as an integer.
    pub fn discriminant_value(&self) -> (r: Mpz)
        ensures
            r@ == self.discriminant(),
    {
        self.d.copy()
    }

    /// The group of a discriminant.
    pub fn new_mpz(discriminant: &Mpz) -> (r: Option<MpzGroup>)
        ensures
            r matches Some(g) && g.discriminant() == discriminant@,
    {
        Some(MpzGroup { d: discriminant.copy(), primes: prime_table() })
    }

    /// The group of another discriminant, with this group's prime table.
    pub(crate) fn with_discriminant(&self, discriminant: &Mpz) -> (r: MpzGroup)
        ensures
            r.discriminant() == discriminant@,
    {
        proof {
            use_type_invariant(self);
        }
        let primes = self.primes.clone();
        assert(primes@ == self.primes@);
        MpzGroup { d: discriminant.copy(), primes }
    }

    /// The group of a discriminant given as an `i64`.
    pub fn new_i64(discriminant: i64) -> (r: Option<MpzGroup>)
        ensures
            r matches Some(g) && g.discriminant() == discriminant,
    {
        MpzGroup::new_mpz(&Mpz::from_i64(discriminant))
    }

    /// The group of a discriminant given as an `i128`.
    pub fn new_i128(discriminant: i128) -> (r: Option<MpzGroup>)
        ensures
            r matches Some(g) && g.discriminant() == discriminant,
    {
        MpzGroup::new_mpz(&Mpz::from_i128(discriminant))
    }

    /// The group of a discriminant given as decimal text; `None` where the
    /// text is no integer.
    pub fn new_str(discriminant: &str) -> (r: Option<MpzGroup>)
        ensures
            r is Some <==> read_decimal(discriminant@) is Some,
            r matches Some(g) ==> read_decimal(discriminant@) == Some(g.discriminant()),
    {
        if contains_nul(discriminant) {
            return None;
        }
        match parse_text(discriminant, 10) {
            None => None,
            Some(v) => MpzGroup::new_mpz(&v),
        }
    }

    /// Sets the discriminant.
    pub fn set_discriminant_i64(&mut self, discriminant: i64)
        ensures
            final(self).discriminant() == discriminant,
    {
        proof {
            use_type_invariant(&*self);
        }
        self.d = Mpz::from_i64(discriminant);
    }

    /// Sets the discriminant; always `true`.
    pub fn set_discriminant_mpz(&mut self, discriminant: &Mpz) -> (r: bool)
        ensures
            r,
            final(self).discriminant() == discriminant@,
    {
        proof {
            use_type_invariant(&*self);
        }
        self.d = discriminant.copy();
        true
    }

    /// Sets the discriminant from decimal text; `false`, and no change, where
    /// the text is no integer.
    pub fn set_discriminant_str(&mut self, discriminant: &str) -> (r: bool)
        ensures
            r == read_decimal(discriminant@) is Some,
            final(self).discriminant() == if r {
                read_decimal(discriminant@).unwrap()
            } else {
                old(self).discriminant()
            },
    {
        if contains_nul(discriminant) {
            return false;
        }
        match parse_text(discriminant, 10) {
            None => false,
            Some(v) => self.set_discriminant_mpz(&v),
        }
    }

    /// Whether a form belongs to the group: `a > 0` and its discriminant is
    /// the group's.
    pub fn contains(&self, form: &MpzForm) -> (r: bool)
        ensures
            r == is_form(self.discriminant(), form@),
    {
        let a = form.coeff_a();
        let b = form.coeff_b();
        let c = form.coeff_c();
        let dd = b.mul(b).sub(&Mpz::from_i64(4).mul(a).mul(c));
        Mpz::new().lt(a) && dd.eq(&self.d)
    }

    /// A new form `(0, 0, 0)`.
    pub fn new_form(&self) -> (r: Option<MpzForm>)
        ensures
            r matches Some(f) && f@ == (IntForm { a: 0, b: 0, c: 0 }),
    {
        Some(MpzForm::zero())
    }

    /// The principal form.
    pub fn identity(&self) -> (r: Option<MpzForm>)
        ensures
            r matches Some(f) && f@ == identity(self.discriminant()),
    {
        Some(identity_exec(&self.d))
    }

    /// Sets a form to the principal form.
    pub fn set_id(&self, form: &mut MpzForm)
        ensures
            final(form)@ == identity(self.discriminant()),
    {
        *form = identity_exec(&self.d);
    }

    /// Clears a form to `(0, 0, 0)`.
    pub fn clear_form(&self, form: &mut MpzForm)
        ensures
            final(form)@ == (IntForm { a: 0, b: 0, c: 0 }),
    {
        *form = MpzForm::zero();
    }

    /// The hash of a form.
    pub fn hash32(&self, form: &MpzForm) -> (r: u32)
        ensures
            r == hash32(form@),
    {
        hash32_exec(form)
    }

    /// Whether the form has `a == 1`: the principal class.
    pub fn is_id(&self, form: &MpzForm) -> (r: bool)
        ensures
            r == (form@.a == 1),
    {
        is_id_exec(form)
    }

    /// Whether the (reduced) form is ambiguous.
    pub fn is_ambiguous(&self, form: &MpzForm) -> (r: bool)
        ensures
            r == is_ambiguous(form@),
    {
        is_ambiguous_exec(form)
    }

    /// Whether two forms have the same coefficients.
    pub fn equal(&self, a: &MpzForm, b: &MpzForm) -> (r: bool)
        ensures
            r == (a@ == b@),
    {
        equal_exec(a, b)
    }

    /// Copies a form.
    pub fn set(&self, dst: &mut MpzForm, src: &MpzForm)
        ensures
            final(dst)@ == src@,
    {
        *dst = src.copy();
    }

    /// Inverts a form: `(a, -b, c)`.
    pub fn inverse(&self, form: &mut MpzForm)
        ensures
            final(form)@ == inverse(old(form)@),
    {
        *form = inverse_exec(form);
    }

    /// Reduces a form with `a > 0`.
    pub fn reduce(&self, form: &mut MpzForm)
        requires
            old(form)@.a > 0,
        ensures
            final(form)@ == reduce(old(form)@),
    {
        *form = reduce_exec(form);
    }

    /// Composes two forms of the group.
    pub fn compose(&self, out: &mut MpzForm, a: &MpzForm, b: &MpzForm)
        requires
            is_form(self.discriminant(), a@),
            is_form(self.discriminant(), b@),
        ensures
            final(out)@ == compose(a@, b@),
    {
        *out = compose_exec(a, b);
    }

    /// Squares a form of the group.
    pub fn square(&self, out: &mut MpzForm, a: &MpzForm)
        requires
            is_form(self.discriminant(), a@),
        ensures
            final(out)@ == square(a@),
    {
        *out = compose_exec(a, a);
    }

    /// Cubes a form of the group.
    pub fn cube(&self, out: &mut MpzForm, a: &MpzForm)
        requires
            is_form(self.discriminant(), a@),
        ensures
            final(out)@ == cube(a@),
    {
        proof {
            lemma_compose_form(self.discriminant(), a@, a@);
        }
        let sq = compose_exec(a, a);
        *out = compose_exec(&sq, a);
    }

    /// Sets the form to the prime form of `p` where there is one; the form
    /// stays as it was where there is none.
    pub fn is_primeform(&self, form: &mut MpzForm, p: i32) -> (r: bool)
        ensures
            r == prime_form(self.discriminant(), p as int) is Some,
            final(form)@ == if r {
                prime_form(self.discriminant(), p as int).unwrap()
            } else {
                old(form)@
            },
    {
        match prime_form_exec(&self.d, p) {
            Some(f) => {
                *form = f;
                true
            },
            None => false,
        }
    }

    /// The prime form of `p`, where there is one.
    pub fn prime_form(&self, p: i32) -> (r: Option<MpzForm>)
        ensures
            match r {
                Some(f) => prime_form(self.discriminant(), p as int) == Some(f@),
                None => prime_form(self.discriminant(), p as int) is None,
            },
    {
        prime_form_exec(&self.d, p)
    }

    /// The decimal texts of the coefficients.
    pub fn coefficients(&self, form: &MpzForm) -> (r: Option<(String, String, String)>)
        ensures
            r matches Some((a, b, c)) && a@ == int_text(form@.a, 10) && b@ == int_text(form@.b, 10)
                && c@ == int_text(form@.c, 10),
    {
        Some(coefficient_texts(form))
    }

    /// Sets the coefficients from decimal texts, one after the other; stops
    /// at the first text that is no integer, and then returns `false`.
    pub fn set_coefficients_str(&self, form: &mut MpzForm, a: &str, b: &str, c: &str) -> (r: bool)
        ensures
            (r, final(form)@) == set_from_texts(old(form)@, a@, b@, c@),
    {
        set_coefficients_from_texts(form, a, b, c)
    }

    /// Sets the coefficients.
    pub fn set_coefficients_mpz(&self, form: &mut MpzForm, a: &Mpz, b: &Mpz, c: &Mpz) -> (r: bool)
        ensures
            r,
            final(form)@ == (IntForm { a: a@, b: b@, c: c@ }),
    {
        *form = MpzForm::from_coefficients(a.copy(), b.copy(), c.copy());
        true
    }

    /// The coefficients.
    pub fn coefficients_mpz(&self, form: &MpzForm) -> (r: Option<(Mpz, Mpz, Mpz)>)
        ensures
            r matches Some((a, b, c)) && a@ == form@.a && b@ == form@.b && c@ == form@.c,
    {
        Some((form.coeff_a().copy(), form.coeff_b().copy(), form.coeff_c().copy()))
    }

    /// A prime form of a randomly chosen prime of the table; `None` where no
    /// prime of the table has one.
    pub fn random_prime_form(&self) -> (r: Option<MpzForm>)
        ensures
            r is None <==> next_prime_index(self.discriminant(), prime_list(), 0) is None,
            r matches Some(f) ==> exists|i: int|
                0 <= i < prime_list().len() && prime_form(self.discriminant(), #[trigger] prime_list()[i] as int)
                    == Some(f@),
    {
        let r = random_prime_search(&self.d, self.primes());
        match r {
            Some((i, f)) => Some(f),
            None => None,
        }
    }

    /// The prime form of the first prime of the table, from index
    /// `prime_index` on, that has one, with that prime's index; `None` where
    /// the index lies outside the table or no later prime has one.
    pub fn next_prime_form(&self, prime_index: i32) -> (r: Option<(i32, MpzForm)>)
        ensures
            match r {
                Some((i, f)) => next_prime_index(self.discriminant(), prime_list(), prime_index as int)
                    == Some(i as int) && prime_form(self.discriminant(), prime_list()[i as int] as int)
                    == Some(f@),
                None => next_prime_index(self.discriminant(), prime_list(), prime_index as int) is None,
            },
    {
        proof {
            lemma_prime_table_small();
        }
        next_prime_exec(&self.d, self.primes(), prime_index)
    }

    /// The `exp`-th power of a form of the group.
    pub fn pow_u32(&self, base: &MpzForm, exp: u32) -> (r: Option<MpzForm>)
        requires
            is_form(self.discriminant(), base@),
        ensures
            r matches Some(f) && f@ == pow(self.discriminant(), base@, exp as nat),
    {
        Some(pow_exec(&self.d, base, exp))
    }

    /// The factor of `n` that an ambiguous form gives, as decimal text.
    pub fn split_ambiguous_str(&self, form: &MpzForm, n: &str) -> (r: Option<String>)
        ensures
            match r {
                Some(t) => split_text(form@, n@) matches Some(g) && t@ == int_text(g, 10),
                None => split_text(form@, n@) is None,
            },
    {
        if contains_nul(n) {
            return None;
        }
        match parse_text(n, 10) {
            None => None,
            Some(v) => match split_exec(form, &v) {
                None => None,
                Some(g) => Some(g.to_string_radix(10)),
            },
        }
    }

    /// The factor of `n` that an ambiguous form gives.
    pub fn split_ambiguous_mpz(&self, form: &MpzForm, n: &Mpz) -> (r: Option<Mpz>)
        ensures
            match r {
                Some(g) => split_factor(form@, n@) == Some(g@),
                None => split_factor(form@, n@) is None,
            },
    {
        split_exec(form, n)
    }
}

} // verus!
