//! What holds of the class group operations as a whole, over the functions
//! that the operations' contracts speak of.

use crate::form::{
    compose, cube, gcd, identity, inverse, is_form, is_reduced, lemma_compose,
    lemma_compose_identity_left, lemma_compose_identity_right, lemma_compose_inverse,
    lemma_identity, lemma_next_prime_index, lemma_no_prime_index, lemma_pow_small, lemma_prime_form,
    lemma_principal_unique, lemma_reduce, lemma_reduce_reduced, lemma_square_identity, lemma_xgcd, next_prime_index,
    pow, prime_form, reduce, split_factor, square, valid_disc, IntForm, first_root, root_ok,
    is_ambiguous, is_normal, normalize, lemma_reduce_unfold, disc, xgcd,
};
use crate::algo::lemma_pow_form;
use crate::mpz_group::set_from_texts;
use crate::radix::{
    canonical_text, int_text, lemma_canonical_text, lemma_read_upper, to_upper, lemma_text_roundtrip, read_result,
    ParseMpzError,
};
use vstd::arithmetic::div_mod::{lemma_fundamental_div_mod, lemma_mod_multiples_basic};
use vstd::prelude::*;

verus! {

/// The principal form is a reduced form of the discriminant, and the one
/// that `is_id` accepts: its `a` is 1.
pub proof fn law_identity_is_id(d: int)
    requires
        valid_disc(d),
    ensures
        identity(d).a == 1,
        is_form(d, identity(d)),
        is_reduced(identity(d)),
{
    lemma_identity(d);
}

/// A reduced form of the discriminant has `a == 1` exactly when it is the
/// principal form.
pub proof fn law_is_id_iff_identity(d: int, f: IntForm)
    requires
        valid_disc(d),
        is_form(d, f),
        is_reduced(f),
    ensures
        f.a == 1 <==> f == identity(d),
{
    if f.a == 1 {
        lemma_principal_unique(d, f);
    }
}

/// Composing a reduced form with the principal form, on either side, gives
/// the form back.
pub proof fn law_identity_is_neutral(d: int, f: IntForm)
    requires
        valid_disc(d),
        is_form(d, f),
        is_reduced(f),
    ensures
        compose(identity(d), f) == f,
        compose(f, identity(d)) == f,
{
    lemma_compose_identity_left(d, f);
    lemma_compose_identity_right(d, f);
}

/// The inverse of a form is a form of the discriminant, inverting twice
/// gives the form back, and a form composed with its inverse, on either
/// side, gives the principal form.
pub proof fn law_inverse_composes_to_identity(d: int, f: IntForm)
    requires
        valid_disc(d),
        is_form(d, f),
    ensures
        is_form(d, inverse(f)),
        inverse(inverse(f)) == f,
        compose(f, inverse(f)) == identity(d),
        compose(inverse(f), f) == identity(d),
{
    assert(is_form(d, inverse(f))) by (nonlinear_arith)
        requires
            is_form(d, f),
    ;
    assert(inverse(inverse(f)) == f);
    lemma_compose_inverse(d, f);
    lemma_compose_inverse(d, inverse(f));
}

/// Composition, squaring, cubing and powers give reduced forms of the
/// discriminant of their arguments.
pub proof fn law_operations_stay_in_group(d: int, f: IntForm, g: IntForm, e: nat)
    requires
        valid_disc(d),
        is_form(d, f),
        is_form(d, g),
    ensures
        is_form(d, compose(f, g)) && is_reduced(compose(f, g)),
        is_form(d, square(f)) && is_reduced(square(f)),
        is_form(d, cube(f)) && is_reduced(cube(f)),
        is_form(d, pow(d, f, e)) && is_reduced(pow(d, f, e)),
{
    lemma_compose(d, f, g);
    lemma_compose(d, f, f);
    lemma_compose(d, square(f), f);
    lemma_pow_form(d, f, e);
}

/// Reduction gives a reduced form of the same discriminant, leaves a reduced
/// form unchanged, and so reducing twice is reducing once.
pub proof fn law_reduce_is_idempotent(d: int, f: IntForm)
    requires
        valid_disc(d),
        is_form(d, f),
    ensures
        is_form(d, reduce(f)),
        is_reduced(reduce(f)),
        reduce(reduce(f)) == reduce(f),
        is_reduced(f) ==> reduce(f) == f,
{
    lemma_reduce(f);
    lemma_reduce_reduced(reduce(f));
    if is_reduced(f) {
        lemma_reduce_reduced(f);
    }
}

/// The power by 0 is the principal form, by 1 the form itself, by 2 the
/// square and by 3 the cube.
pub proof fn law_small_powers(d: int, f: IntForm)
    requires
        valid_disc(d),
        is_form(d, f),
        is_reduced(f),
    ensures
        pow(d, f, 0) == identity(d),
        pow(d, f, 1) == f,
        pow(d, f, 2) == square(f),
        pow(d, f, 3) == cube(f),
{
    lemma_pow_small(d, f);
    assert(pow(d, f, 2) == square(pow(d, f, 1)));
}

/// A prime form is a reduced form of the discriminant whose `a` is the prime.
pub proof fn law_prime_form_in_group(d: int, p: int)
    requires
        valid_disc(d),
        prime_form(d, p) is Some,
    ensures
        is_form(d, prime_form(d, p).unwrap()),
        is_reduced(prime_form(d, p).unwrap()),
{
    lemma_prime_form(d, p);
}

/// The search for the next prime form rejects an index outside the list,
/// finds an index no smaller than the one it starts from, of a prime that
/// has a prime form, and a search from just after a found index finds a
/// greater one or none.
pub proof fn law_next_prime_index_increases(d: int, list: Seq<u32>, i: int)
    ensures
        (i < 0 || i >= list.len()) ==> next_prime_index(d, list, i) is None,
        next_prime_index(d, list, i) matches Some(j) ==> i <= j < list.len() && prime_form(
            d,
            list[j] as int,
        ) is Some,
        next_prime_index(d, list, i) matches Some(j) ==> (next_prime_index(d, list, j + 1) matches Some(
            k,
        ) ==> k > j),
{
    lemma_next_prime_index(d, list, i);
    if let Some(j) = next_prime_index(d, list, i) {
        lemma_next_prime_index(d, list, j + 1);
    }
}

/// A factor that an ambiguous form gives divides the number and is neither
/// 1 nor the number's absolute value.
pub proof fn law_split_factor_divides(f: IntForm, n: int)
    requires
        split_factor(f, n) is Some,
    ensures
        ({
            let g = split_factor(f, n).unwrap();
            &&& n % g == 0
            &&& 1 < g
            &&& g < (if n < 0 {
                -n
            } else {
                n
            })
        }),
{
    let x = crate::form::ambiguous_part(f);
    let ax = if x < 0 {
        -x
    } else {
        x
    };
    let an = if n < 0 {
        -n
    } else {
        n
    };
    let g = gcd(x, n);
    assert(an > 1);
    lemma_xgcd(ax, an);
    assert(an % g == 0);
    lemma_fundamental_div_mod(an, g);
    let k = an / g;
    assert(an == g * k);
    if n < 0 {
        assert(n == (-k) * g) by (nonlinear_arith)
            requires
                n == -an,
                an == g * k,
        ;
        lemma_mod_multiples_basic(-k, g);
    }
}

/// The text of an integer in a radix from 2 to 36 reads back as that integer.
pub proof fn law_text_roundtrip(v: int, radix: nat)
    requires
        2 <= radix <= 36,
    ensures
        read_result(int_text(v, radix), radix as int) == Ok::<int, ParseMpzError>(v),
{
    lemma_text_roundtrip(v, radix);
}

/// A canonical text of an integer in a radix from 2 to 36 (an optional
/// `-`, digits and lower case letters without a leading zero, no `-0`)
/// reads as an integer whose text is that same text.
pub proof fn law_canonical_text_roundtrip(s: Seq<char>, radix: int)
    requires
        2 <= radix <= 36,
        canonical_text(s, radix),
    ensures
        read_result(s, radix) is Ok,
        int_text(read_result(s, radix)->Ok_0, radix as nat) == s,
{
    lemma_canonical_text(s, radix);
}

/// Setting the coefficients of a form from canonical decimal texts succeeds,
/// and the decimal texts of the coefficients are then those texts again.
pub proof fn law_coefficient_texts_roundtrip(
    old: IntForm,
    a: Seq<char>,
    b: Seq<char>,
    c: Seq<char>,
)
    requires
        canonical_text(a, 10),
        canonical_text(b, 10),
        canonical_text(c, 10),
    ensures
        set_from_texts(old, a, b, c).0,
        int_text(set_from_texts(old, a, b, c).1.a, 10) == a,
        int_text(set_from_texts(old, a, b, c).1.b, 10) == b,
        int_text(set_from_texts(old, a, b, c).1.c, 10) == c,
{
    lemma_canonical_text(a, 10);
    lemma_canonical_text(b, 10);
    lemma_canonical_text(c, 10);
}

/// Powers are built by squaring: the power by `2e` is the square of the
/// power by `e`, and the power by `2e + 1` is that square composed with the
/// form.
pub proof fn law_pow_by_squaring(d: int, f: IntForm, e: nat)
    ensures
        pow(d, f, 2 * e) == square(pow(d, f, e)),
        pow(d, f, 2 * e + 1) == compose(square(pow(d, f, e)), f),
{
    assert((2 * e) / 2 == e && (2 * e) % 2 == 0);
    if e == 0 {
        lemma_square_identity(d);
    }
    assert((2 * e + 1) / 2 == e && (2 * e + 1) % 2 == 1);
}

/// A number that is neither 0 nor 1 modulo 4 is the discriminant of no
/// form, so the search for prime forms finds none.
pub proof fn law_no_prime_forms_off_residues(d: int, list: Seq<u32>, i: int)
    requires
        !(d % 4 == 0 || d % 4 == 1),
    ensures
        next_prime_index(d, list, i) is None,
        forall|f: IntForm| !is_form(d, f),
{
    lemma_no_prime_index(d, list, i);
    assert forall|f: IntForm| !is_form(d, f) by {
        if is_form(d, f) {
            assert(4 * f.a * f.c == 4 * (f.a * f.c)) by (nonlinear_arith);
            crate::form::lemma_square_minus_four(f.b, f.a * f.c);
        }
    }
}

/// What the search for the least root finds from `k`: the least `b` from
/// `k` to `p` with `b^2 == d` modulo `4p`, or none where there is none.
proof fn lemma_first_root_least(d: int, p: int, k: int)
    requires
        p > 0,
        0 <= k,
    ensures
        first_root(d, p, k) matches Some(b) ==> k <= b <= p && root_ok(d, p, b) && forall|j: int|
            k <= j < b ==> !#[trigger] root_ok(d, p, j),
        first_root(d, p, k) is None ==> forall|j: int| k <= j <= p ==> !#[trigger] root_ok(d, p, j),
    decreases p + 1 - k,
{
    if k <= p && !root_ok(d, p, k) {
        lemma_first_root_least(d, p, k + 1);
    }
}

/// A prime `p` has a prime form exactly when some `b` with `0 <= b <= p`
/// has `b^2 == d` modulo `4p` (`root_ok`); the prime form is then the
/// reduction of `(p, b, (b^2 - d) / 4p)` for the least such `b`. A number
/// `p <= 0` has none.
pub proof fn law_prime_form_exact(d: int, p: int)
    ensures
        p <= 0 ==> prime_form(d, p) is None,
        p > 0 ==> (prime_form(d, p) is Some <==> exists|b: int|
            0 <= b <= p && #[trigger] root_ok(d, p, b)),
        p > 0 ==> forall|b: int|
            0 <= b <= p && #[trigger] root_ok(d, p, b) && (forall|j: int|
                0 <= j < b ==> !#[trigger] root_ok(d, p, j)) ==> prime_form(d, p) == Some(
                reduce(IntForm { a: p, b: b, c: (b * b - d) / (4 * p) }),
            ),
{
    if p > 0 {
        lemma_first_root_least(d, p, 0);
        assert forall|b: int|
            0 <= b <= p && #[trigger] root_ok(d, p, b) && (forall|j: int|
                0 <= j < b ==> !#[trigger] root_ok(d, p, j)) implies prime_form(d, p) == Some(
            reduce(IntForm { a: p, b: b, c: (b * b - d) / (4 * p) }),
        ) by {
            let b0 = first_root(d, p, 0).unwrap();
            if b0 < b {
                assert(!root_ok(d, p, b0));
            }
            if b < b0 {
                assert(!root_ok(d, p, b));
            }
        }
    }
}

/// A reduced form is ambiguous exactly when it is not the principal form
/// and is the reduction of its own inverse: an element of order 2.
pub proof fn law_ambiguous_is_own_inverse(f: IntForm)
    requires
        f.a > 0,
        is_reduced(f),
    ensures
        is_ambiguous(f) <==> (f.a != 1 && reduce(inverse(f)) == f),
{
    let g = inverse(f);
    lemma_reduce_reduced(f);
    lemma_reduce_unfold(g);
    let r = (g.a - g.b) / (2 * g.a);
    if f.b == 0 {
        assert(g == f);
    } else if f.a == f.b {
        vstd::arithmetic::div_mod::lemma_fundamental_div_mod_converse(2 * f.a, 2 * f.a, 1, 0);
        assert(r == 1);
        assert(normalize(g) == f);
    } else if f.a == f.c {
        assert(0 <= g.a - g.b < 2 * g.a);
        vstd::arithmetic::div_mod::lemma_fundamental_div_mod_converse(g.a - g.b, 2 * g.a, 0, g.a - g.b);
        assert(r == 0);
        assert(2 * r * g.a == 0 && g.a * r * r + g.b * r == 0) by (nonlinear_arith)
            requires
                r == 0,
        ;
        assert(normalize(g) == g);
        assert(reduce(g) == f);
    } else {
        assert(is_reduced(g));
        lemma_reduce_reduced(g);
        assert(reduce(g) != f);
    }
}

/// The greatest common divisor that `gcd` gives: positive where the second
/// number is not zero and the first is positive, a divisor of both, and a
/// multiple of every common divisor.
proof fn lemma_gcd_greatest(x: int, n: int)
    requires
        x > 0,
        n != 0,
    ensures
        gcd(x, n) > 0,
        x % gcd(x, n) == 0,
        n % gcd(x, n) == 0,
        forall|k: int| k > 0 && x % k == 0 && n % k == 0 ==> #[trigger] (gcd(x, n) % k) == 0,
{
    let an = if n < 0 {
        -n
    } else {
        n
    };
    let g = gcd(x, n);
    lemma_xgcd(x, an);
    let t = xgcd(x, an);
    assert(g == t.0);
    lemma_fundamental_div_mod(an, g);
    let q = an / g;
    if n < 0 {
        assert(n == (-q) * g) by (nonlinear_arith)
            requires
                n == -an,
                an == g * q,
        ;
        lemma_mod_multiples_basic(-q, g);
    }
    assert forall|k: int| k > 0 && x % k == 0 && n % k == 0 implies #[trigger] (g % k) == 0 by {
        lemma_fundamental_div_mod(x, k);
        lemma_fundamental_div_mod(n, k);
        let u = x / k;
        let v = n / k;
        let w = if n < 0 {
            -v
        } else {
            v
        };
        assert(an == k * w) by (nonlinear_arith)
            requires
                n == k * v,
                w == (if n < 0 {
                    -v
                } else {
                    v
                }),
                an == (if n < 0 {
                    -n
                } else {
                    n
                }),
        ;
        assert(g == (t.1 * u + t.2 * w) * k) by (nonlinear_arith)
            requires
                t.1 * x + t.2 * an == g,
                x == k * u,
                an == k * w,
        ;
        lemma_mod_multiples_basic(t.1 * u + t.2 * w, k);
    }
}

/// The factor that an ambiguous reduced form `(a, b, c)`, not the principal
/// form, gives of `n`. It is the greatest common divisor `g` of `n` and of
/// `a` where `b == 0` or `a == b`, else of `2a - b` where `a == c`. That
/// number divides the form's discriminant. The factor is `g` exactly when
/// `1 < g < |n|`, and none otherwise.
pub proof fn law_split_factor_exact(f: IntForm, n: int)
    requires
        f.a > 1,
        is_reduced(f),
        f.b == 0 || f.a == f.b || f.a == f.c,
        n != 0,
    ensures
        ({
            let x = if f.b == 0 || f.a == f.b {
                f.a
            } else {
                2 * f.a - f.b
            };
            let g = gcd(x, n);
            &&& x > 0
            &&& disc(f) % x == 0
            &&& g > 0 && x % g == 0 && n % g == 0
            &&& forall|k: int| k > 0 && x % k == 0 && n % k == 0 ==> #[trigger] (g % k) == 0
            &&& split_factor(f, n) == if 1 < g && g < (if n < 0 {
                -n
            } else {
                n
            }) {
                Some(g)
            } else {
                None
            }
        }),
{
    let x = if f.b == 0 || f.a == f.b {
        f.a
    } else {
        2 * f.a - f.b
    };
    lemma_gcd_greatest(x, n);
    let dd = disc(f);
    if f.b == 0 {
        assert(dd == f.a * (-4 * f.c)) by (nonlinear_arith)
            requires
                dd == f.b * f.b - 4 * f.a * f.c,
                f.b == 0,
        ;
        lemma_mod_multiples_basic(-4 * f.c, f.a);
        assert(f.a * (-4 * f.c) == (-4 * f.c) * f.a) by (nonlinear_arith);
    } else if f.a == f.b {
        assert(dd == (f.a - 4 * f.c) * f.a) by (nonlinear_arith)
            requires
                dd == f.b * f.b - 4 * f.a * f.c,
                f.a == f.b,
        ;
        lemma_mod_multiples_basic(f.a - 4 * f.c, f.a);
    } else {
        assert(dd == (-(2 * f.a + f.b)) * x) by (nonlinear_arith)
            requires
                dd == f.b * f.b - 4 * f.a * f.c,
                f.a == f.c,
                x == 2 * f.a - f.b,
        ;
        lemma_mod_multiples_basic(-(2 * f.a + f.b), x);
    }
}

/// Reading a text ignores the case of its letters: a text and its upper
/// case version read as the same integer, or fail alike, in every radix.
pub proof fn law_read_ignores_case(s: Seq<char>, radix: int)
    ensures
        read_result(to_upper(s), radix) == read_result(s, radix),
{
    lemma_read_upper(s, radix);
}

/// The search for the next prime form finds the first index from its start
/// whose prime has a prime form: every prime it passes over has none, and
/// where it finds nothing no prime from the start on has one.
pub proof fn law_next_prime_index_is_first(d: int, list: Seq<u32>, i: int)
    requires
        0 <= i,
    ensures
        next_prime_index(d, list, i) matches Some(j) ==> forall|k: int|
            i <= k < j ==> prime_form(d, #[trigger] list[k] as int) is None,
        next_prime_index(d, list, i) is None ==> forall|k: int|
            i <= k < list.len() ==> prime_form(d, #[trigger] list[k] as int) is None,
    decreases list.len() - i,
{
    lemma_next_prime_index(d, list, i);
    if i < list.len() && prime_form(d, list[i] as int) is None {
        law_next_prime_index_is_first(d, list, i + 1);
    }
}

} // verus!
