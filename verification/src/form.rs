//! The mathematics of binary quadratic forms `a x^2 + b x y + c y^2`.

use vstd::arithmetic::div_mod::{
    lemma_fundamental_div_mod, lemma_fundamental_div_mod_converse, lemma_mod_multiples_basic,
};
use vstd::prelude::*;

verus! {

/// A form with integer coefficients.
pub struct IntForm {
    pub a: int,
    pub b: int,
    pub c: int,
}

/// The discriminant `b^2 - 4ac`.
pub open spec fn disc(f: IntForm) -> int {
    f.b * f.b - 4 * f.a * f.c
}

/// A discriminant of an imaginary quadratic order: negative, `0` or `1` mod 4.
pub open spec fn valid_disc(d: int) -> bool {
    d < 0 && (d % 4 == 0 || d % 4 == 1)
}

/// A positive definite form of discriminant `d`.
pub open spec fn is_form(d: int, f: IntForm) -> bool {
    f.a > 0 && disc(f) == d
}

/// `-a < b <= a`.
pub open spec fn is_normal(f: IntForm) -> bool {
    -f.a < f.b <= f.a
}

/// The reduced forms: `-a < b <= a`, `a <= c`, and `b >= 0` where `a == c`.
pub open spec fn is_reduced(f: IntForm) -> bool {
    &&& is_normal(f)
    &&& f.a <= f.c
    &&& (f.a == f.c ==> f.b >= 0)
}

/// The form with the same `a` whose `b` lies in `(-a, a]` and differs from
/// the given `b` by a multiple of `2a`: an equivalent form.
pub open spec fn normalize(f: IntForm) -> IntForm {
    let r = (f.a - f.b) / (2 * f.a);
    IntForm { a: f.a, b: f.b + 2 * r * f.a, c: f.a * r * r + f.b * r + f.c }
}

/// The reduced form equivalent to a positive definite form.
pub open spec fn reduce(f: IntForm) -> IntForm
    decreases (if f.a > 0 {
        f.a
    } else {
        0
    }),
{
    if f.a <= 0 {
        f
    } else {
        let g = normalize(f);
        if 0 < g.c && g.c < g.a {
            reduce(IntForm { a: g.c, b: -g.b, c: g.a })
        } else if g.a == g.c && g.b < 0 {
            IntForm { a: g.a, b: -g.b, c: g.c }
        } else {
            g
        }
    }
}

/// The extended Euclidean algorithm: `(g, x, y)` with `x a + y b == g`.
pub open spec fn xgcd(a: int, b: int) -> (int, int, int)
    decreases (if b > 0 {
        b
    } else {
        0
    }),
{
    if b <= 0 {
        (a, 1, 0)
    } else {
        let t = xgcd(b, a % b);
        (t.0, t.2, t.1 - (a / b) * t.2)
    }
}

/// The greatest common divisor of the absolute values.
pub open spec fn gcd(a: int, b: int) -> int {
    xgcd(if a < 0 {
        -a
    } else {
        a
    }, if b < 0 {
        -b
    } else {
        b
    }).0
}

/// The composite of two forms of one discriminant, before reduction
/// (Dirichlet composition, with the Bezout coefficients of `xgcd`).
pub open spec fn compose_raw(f1: IntForm, f2: IntForm) -> IntForm {
    let s = (f1.b + f2.b) / 2;
    let n = f2.b - s;
    let e1 = xgcd(f2.a, f1.a);
    let e2 = xgcd(s, e1.0);
    let d1 = e2.0;
    let mu = e2.2 * e1.1;
    let nu = e2.1;
    let v1 = f1.a / d1;
    let v2 = f2.a / d1;
    let r = (-mu * n - nu * f2.c) % v1;
    IntForm { a: v1 * v2, b: f2.b + 2 * v2 * r, c: (d1 * f2.c + r * (f2.b + v2 * r)) / v1 }
}

/// The reduced representative of the product of the classes of two forms.
pub open spec fn compose(f1: IntForm, f2: IntForm) -> IntForm {
    reduce(compose_raw(f1, f2))
}

/// The square of a class.
pub open spec fn square(f: IntForm) -> IntForm {
    compose(f, f)
}

/// The cube of a class.
pub open spec fn cube(f: IntForm) -> IntForm {
    compose(square(f), f)
}

/// The principal form of discriminant `d`: `(1, d mod 2, (d mod 2 - d) / 4)`.
pub open spec fn identity(d: int) -> IntForm {
    IntForm { a: 1, b: d % 2, c: (d % 2 - d) / 4 }
}

/// The inverse of a form: `(a, -b, c)`.
pub open spec fn inverse(f: IntForm) -> IntForm {
    IntForm { a: f.a, b: -f.b, c: f.c }
}

/// The `e`-th power of a class, by squaring from the most significant bit.
pub open spec fn pow(d: int, f: IntForm, e: nat) -> IntForm
    decreases e,
{
    if e == 0 {
        identity(d)
    } else {
        let h = square(pow(d, f, e / 2));
        if e % 2 == 1 {
            compose(h, f)
        } else {
            h
        }
    }
}

/// Whether the form is ambiguous and not the identity, that is of order
/// exactly 2, tested on a reduced form: `a != 1`, and `b == 0`, `a == b` or
/// `a == c`.
pub open spec fn is_ambiguous(f: IntForm) -> bool {
    f.a != 1 && (f.b == 0 || f.a == f.b || f.a == f.c)
}

/// Whether `b^2 == d` modulo `4p`.
pub open spec fn root_ok(d: int, p: int, b: int) -> bool {
    (b * b - d) % (4 * p) == 0
}

/// The least `b` from the given one up to `p` with `b^2 == d` modulo `4p`.
pub open spec fn first_root(d: int, p: int, b: int) -> Option<int>
    decreases p + 1 - b,
{
    if b > p || b < 0 {
        None
    } else if root_ok(d, p, b) {
        Some(b)
    } else {
        first_root(d, p, b + 1)
    }
}

/// The reduced form equivalent to `(p, b, (b^2 - d) / 4p)` for the least
/// `b` in `0..=p` with `b^2 == d` modulo `4p`; none where there is no such
/// `b` or `p <= 0`.
pub open spec fn prime_form(d: int, p: int) -> Option<IntForm> {
    if p <= 0 {
        None
    } else {
        match first_root(d, p, 0) {
            None => None,
            Some(b) => Some(reduce(IntForm { a: p, b: b, c: (b * b - d) / (4 * p) })),
        }
    }
}

/// The first index from `i` on of a prime of the list with a prime form.
pub open spec fn next_prime_index(d: int, list: Seq<u32>, i: int) -> Option<int>
    decreases list.len() - i,
{
    if i < 0 || i >= list.len() {
        None
    } else if prime_form(d, list[i] as int) is Some {
        Some(i)
    } else {
        next_prime_index(d, list, i + 1)
    }
}

/// The index that a search from `start` finds, or, failing that, one from 0.
pub open spec fn prime_index_from(d: int, list: Seq<u32>, start: int) -> Option<int> {
    match next_prime_index(d, list, start) {
        Some(i) => Some(i),
        None => next_prime_index(d, list, 0),
    }
}

/// A 32-bit hash of the coefficients `a` and `b`.
pub open spec fn hash32(f: IntForm) -> u32 {
    (((f.a % 0x1_0000_0000) * 2654435761 + f.b % 0x1_0000_0000) % 0x1_0000_0000) as u32
}

/// For an ambiguous form, the number whose common divisor with the
/// discriminant's multiple splits it: `2a - b` when `a == c`, else `a`.
pub open spec fn ambiguous_part(f: IntForm) -> int {
    if f.b != 0 && f.a != f.b && f.a == f.c {
        2 * f.a - f.b
    } else {
        f.a
    }
}

/// The factor of `n` that an ambiguous form gives: the greatest common
/// divisor of `n` and its ambiguous part, where it is neither 1 nor `|n|`.
pub open spec fn split_factor(f: IntForm, n: int) -> Option<int> {
    if !is_ambiguous(f) {
        None
    } else {
        let g = gcd(ambiguous_part(f), n);
        if 1 < g && g < (if n < 0 {
            -n
        } else {
            n
        }) {
            Some(g)
        } else {
            None
        }
    }
}

// ---------------------------------------------------------------------------
// Lemmas
// ---------------------------------------------------------------------------

pub proof fn lemma_normalize(f: IntForm)
    requires
        f.a > 0,
    ensures
        normalize(f).a == f.a,
        is_normal(normalize(f)),
        disc(normalize(f)) == disc(f),
        normalize(f).b == f.b + 2 * f.a * ((f.a - f.b) / (2 * f.a)),
{
    let a = f.a;
    let b = f.b;
    let c = f.c;
    let t = a - b;
    let m = 2 * a;
    let r = t / m;
    lemma_fundamental_div_mod(t, m);
    assert(0 <= t % m < m);
    assert(m * r <= t < m * r + m);
    let g = normalize(f);
    assert(g.b == b + 2 * r * a);
    assert(2 * r * a == m * r) by (nonlinear_arith)
        requires
            m == 2 * a,
    ;
    assert(g.c == a * r * r + b * r + c);
    assert(disc(g) == disc(f)) by (nonlinear_arith)
        requires
            g.b == b + 2 * r * a,
            g.c == a * r * r + b * r + c,
            disc(g) == g.b * g.b - 4 * a * g.c,
            disc(f) == b * b - 4 * a * c,
    ;
    assert(2 * a * r == 2 * r * a) by (nonlinear_arith);
}

/// A positive definite form of negative discriminant has `c > 0`.
pub proof fn lemma_c_positive(f: IntForm)
    requires
        f.a > 0,
        disc(f) < 0,
    ensures
        f.c > 0,
{
    assert(f.c > 0) by (nonlinear_arith)
        requires
            f.a > 0,
            f.b * f.b - 4 * f.a * f.c < 0,
    {
        assert(f.b * f.b >= 0);
    }
}

/// Reduction gives a reduced form of the same discriminant.
pub proof fn lemma_reduce(f: IntForm)
    requires
        f.a > 0,
        disc(f) < 0,
    ensures
        reduce(f).a > 0,
        disc(reduce(f)) == disc(f),
        is_reduced(reduce(f)),
    decreases f.a,
{
    let g = normalize(f);
    lemma_normalize(f);
    lemma_c_positive(g);
    if 0 < g.c && g.c < g.a {
        let h = IntForm { a: g.c, b: -g.b, c: g.a };
        assert(disc(h) == disc(g)) by (nonlinear_arith)
            requires
                h.a == g.c,
                h.b == -g.b,
                h.c == g.a,
        ;
        lemma_reduce(h);
    } else if g.a == g.c && g.b < 0 {
        let h = IntForm { a: g.a, b: -g.b, c: g.c };
        assert(disc(h) == disc(g)) by (nonlinear_arith)
            requires
                h.a == g.a,
                h.b == -g.b,
                h.c == g.c,
        ;
    }
}

/// A reduced form is its own reduction.
pub proof fn lemma_reduce_reduced(f: IntForm)
    requires
        f.a > 0,
        is_reduced(f),
    ensures
        normalize(f) == f,
        reduce(f) == f,
{
    let a = f.a;
    let t = a - f.b;
    assert(0 <= t < 2 * a);
    lemma_fundamental_div_mod_converse(t, 2 * a, 0, t);
    let r = (f.a - f.b) / (2 * f.a);
    assert(r == 0);
    assert(2 * r * f.a == 0 && f.a * r * r + f.b * r == 0) by (nonlinear_arith)
        requires
            r == 0,
    ;
    assert(normalize(f) == f);
}

/// One step of the reduction.
pub proof fn lemma_reduce_unfold(g: IntForm)
    requires
        g.a > 0,
    ensures
        ({
            let h = normalize(g);
            &&& (0 < h.c && h.c < h.a) ==> reduce(g) == reduce(
                IntForm { a: h.c, b: -h.b, c: h.a },
            )
            &&& (!(0 < h.c && h.c < h.a) && h.a == h.c && h.b < 0) ==> reduce(g) == IntForm {
                a: h.a,
                b: -h.b,
                c: h.c,
            }
            &&& (!(0 < h.c && h.c < h.a) && !(h.a == h.c && h.b < 0)) ==> reduce(g) == h
        }),
{
}

/// The reduction of a form whose normalization is reduced.
pub proof fn lemma_reduce_via_normal(g: IntForm, f: IntForm)
    requires
        g.a > 0,
        normalize(g) == f,
        is_reduced(f),
    ensures
        reduce(g) == f,
{
}

/// Two forms with the same `a` and discriminant, whose `b` differ by a
/// multiple of `2a`, have the same normalization.
pub proof fn lemma_normalize_congruent(f: IntForm, g: IntForm, k: int)
    requires
        f.a > 0,
        g.a == f.a,
        disc(f) == disc(g),
        f.b == g.b + 2 * f.a * k,
    ensures
        normalize(f) == normalize(g),
{
    lemma_normalize(f);
    lemma_normalize(g);
    let a = f.a;
    let nf = normalize(f);
    let ng = normalize(g);
    let rf = (f.a - f.b) / (2 * f.a);
    let rg = (g.a - g.b) / (2 * g.a);
    let j = k + rf - rg;
    assert(nf.b - ng.b == 2 * a * j) by (nonlinear_arith)
        requires
            nf.b == f.b + 2 * a * rf,
            ng.b == g.b + 2 * a * rg,
            f.b == g.b + 2 * a * k,
            j == k + rf - rg,
    ;
    assert(j == 0) by (nonlinear_arith)
        requires
            nf.b - ng.b == 2 * a * j,
            -a < nf.b <= a,
            -a < ng.b <= a,
            a > 0,
    {
        if j >= 1 {
            assert(2 * a * j >= 2 * a);
        } else if j <= -1 {
            assert(2 * a * j <= -2 * a);
        }
    }
    assert(nf.b == ng.b);
    assert(nf.c == ng.c) by (nonlinear_arith)
        requires
            nf.b * nf.b - 4 * a * nf.c == ng.b * ng.b - 4 * a * ng.c,
            nf.b == ng.b,
            a > 0,
    ;
}

/// The extended Euclidean algorithm computes a positive common divisor and
/// its Bezout coefficients.
pub proof fn lemma_xgcd(a: int, b: int)
    requires
        b > 0 || (b == 0 && a > 0),
    ensures
        xgcd(a, b).0 > 0,
        a % xgcd(a, b).0 == 0,
        b % xgcd(a, b).0 == 0,
        xgcd(a, b).1 * a + xgcd(a, b).2 * b == xgcd(a, b).0,
    decreases (if b > 0 {
        b
    } else {
        0
    }),
{
    if b <= 0 {
        vstd::arithmetic::div_mod::lemma_mod_self_0(a);
        vstd::arithmetic::div_mod::lemma_small_mod(0, a as nat);
    } else {
        let r = a % b;
        let q = a / b;
        lemma_fundamental_div_mod(a, b);
        lemma_xgcd(b, r);
        let t = xgcd(b, r);
        let g = t.0;
        lemma_fundamental_div_mod(b, g);
        lemma_fundamental_div_mod(r, g);
        let kb = b / g;
        let kr = r / g;
        assert(a == g * (q * kb + kr)) by (nonlinear_arith)
            requires
                a == b * q + r,
                b == g * kb,
                r == g * kr,
        ;
        lemma_mod_multiples_basic(q * kb + kr, g);
        assert(g * (q * kb + kr) == (q * kb + kr) * g) by (nonlinear_arith);
        assert(t.2 * a + (t.1 - q * t.2) * b == g) by (nonlinear_arith)
            requires
                t.1 * b + t.2 * r == g,
                a == b * q + r,
        ;
    }
}

/// If `g` divides `x` exactly, `x == g * (x / g)`.
pub proof fn lemma_exact_div(x: int, g: int)
    requires
        g > 0,
        x % g == 0,
    ensures
        x == g * (x / g),
{
    lemma_fundamental_div_mod(x, g);
}

/// Divisibility is transitive.
pub proof fn lemma_divides_trans(x: int, g: int, h: int)
    requires
        g > 0,
        h > 0,
        x % g == 0,
        g % h == 0,
    ensures
        x % h == 0,
{
    lemma_exact_div(x, g);
    lemma_exact_div(g, h);
    let k = x / g;
    let l = g / h;
    assert(x == (k * l) * h) by (nonlinear_arith)
        requires
            x == g * k,
            g == h * l,
    ;
    lemma_mod_multiples_basic(k * l, h);
}

/// Forms of one discriminant have `b` of the same parity as the discriminant.
pub proof fn lemma_parity(f: IntForm)
    ensures
        (f.b - disc(f)) % 2 == 0,
{
    let b = f.b;
    lemma_fundamental_div_mod(b, 2);
    let h = b / 2;
    let x = if b % 2 == 0 {
        h * (b - 1)
    } else {
        b * h
    };
    if b % 2 == 0 {
        assert(b * b - b == 2 * x) by (nonlinear_arith)
            requires
                b == 2 * h,
                x == h * (b - 1),
        ;
    } else {
        assert(b * b - b == 2 * x) by (nonlinear_arith)
            requires
                b == 2 * h + 1,
                x == b * h,
        ;
    }
    let y = 2 * (f.a * f.c) - x;
    assert(4 * f.a * f.c == 4 * (f.a * f.c)) by (nonlinear_arith);
    assert(b - disc(f) == y * 2);
    lemma_mod_multiples_basic(y, 2);
}

/// The facts about the composite before reduction: it is a positive definite
/// form of the same discriminant, and its `b` is congruent to `b1` modulo
/// `2 a1 / d1` where `d1` divides `a1`.
pub proof fn lemma_compose_raw(d: int, f1: IntForm, f2: IntForm)
    requires
        is_form(d, f1),
        is_form(d, f2),
    ensures
        is_form(d, compose_raw(f1, f2)),
        ({
            let e1 = xgcd(f2.a, f1.a);
            let d1 = xgcd((f1.b + f2.b) / 2, e1.0).0;
            &&& d1 > 0
            &&& f1.a % d1 == 0
            &&& f2.a % d1 == 0
            &&& f1.a / d1 > 0
            &&& compose_raw(f1, f2).a == (f1.a / d1) * (f2.a / d1)
            &&& (compose_raw(f1, f2).b - f1.b) % (2 * (f1.a / d1)) == 0
        }),
{
    let (a1, b1, c1) = (f1.a, f1.b, f1.c);
    let (a2, b2, c2) = (f2.a, f2.b, f2.c);
    // the two b have the parity of d
    lemma_parity(f1);
    lemma_parity(f2);
    let sum = b1 + b2;
    assert(sum % 2 == 0) by {
        lemma_fundamental_div_mod(b1 - d, 2);
        lemma_fundamental_div_mod(b2 - d, 2);
        let k1 = (b1 - d) / 2;
        let k2 = (b2 - d) / 2;
        assert(sum == 2 * (k1 + k2 + d));
        lemma_mod_multiples_basic(k1 + k2 + d, 2);
    }
    let s = sum / 2;
    lemma_fundamental_div_mod(sum, 2);
    assert(sum == 2 * s);
    let n = b2 - s;
    assert(b1 == s - n && b2 == s + n);
    let e1 = xgcd(a2, a1);
    lemma_xgcd(a2, a1);
    let dd = e1.0;
    let u = e1.1;
    let v = e1.2;
    let e2 = xgcd(s, dd);
    lemma_xgcd(s, dd);
    let d1 = e2.0;
    let x2 = e2.1;
    let y2 = e2.2;
    lemma_divides_trans(a1, dd, d1);
    lemma_divides_trans(a2, dd, d1);
    let mu = y2 * u;
    let nu = x2;
    let lam = y2 * v;
    assert(lam * a1 + mu * a2 + nu * s == d1) by (nonlinear_arith)
        requires
            u * a2 + v * a1 == dd,
            x2 * s + y2 * dd == d1,
            mu == y2 * u,
            nu == x2,
            lam == y2 * v,
    ;
    let v1 = a1 / d1;
    let v2 = a2 / d1;
    lemma_exact_div(a1, d1);
    lemma_exact_div(a2, d1);
    assert(v1 > 0 && v2 > 0) by (nonlinear_arith)
        requires
            a1 == d1 * v1,
            a2 == d1 * v2,
            a1 > 0,
            a2 > 0,
            d1 > 0,
    ;
    let rr = -mu * n - nu * c2;
    let r = rr % v1;
    let q = rr / v1;
    lemma_fundamental_div_mod(rr, v1);
    assert(rr == v1 * q + r);
    // s n == a2 c2 - a1 c1
    assert(s * n == a2 * c2 - a1 * c1) by (nonlinear_arith)
        requires
            b1 == s - n,
            b2 == s + n,
            b1 * b1 - 4 * a1 * c1 == d,
            b2 * b2 - 4 * a2 * c2 == d,
    ;
    // n + v2 rr == v1 (lam n - nu c1)
    let k0 = lam * n - nu * c1;
    lemma_algebra_first(d1, n, v1, v2, rr, a1, a2, lam, mu, nu, s, c1, c2, k0);
    assert(n + v2 * rr == v1 * k0) by (nonlinear_arith)
        requires
            d1 * (n + v2 * rr) == d1 * (v1 * k0),
            d1 > 0,
    ;
    let kk = k0 - v2 * q;
    assert(n + v2 * r == v1 * kk) by (nonlinear_arith)
        requires
            n + v2 * rr == v1 * k0,
            rr == v1 * q + r,
            kk == k0 - v2 * q,
    ;
    // d1 c2 + rr s == d1 v1 (lam c2 + mu c1)
    let m0 = lam * c2 + mu * c1;
    lemma_algebra_second(d1, n, v1, rr, a1, a2, lam, mu, nu, s, c1, c2, m0);
    let ee = d1 * c2 + r * (b2 + v2 * r);
    let c3 = d1 * m0 - q * s + r * kk;
    assert(ee == v1 * c3) by (nonlinear_arith)
        requires
            ee == d1 * c2 + r * (b2 + v2 * r),
            c3 == d1 * m0 - q * s + r * kk,
            d1 * c2 + rr * s == v1 * (d1 * m0),
            rr == v1 * q + r,
            n + v2 * r == v1 * kk,
            b2 == s + n,
    ;
    lemma_fundamental_div_mod_converse(ee, v1, c3, 0);
    let g = compose_raw(f1, f2);
    assert(g.a == v1 * v2);
    assert(g.b == b2 + 2 * v2 * r);
    assert(g.c == c3);
    assert(g.a > 0) by (nonlinear_arith)
        requires
            g.a == v1 * v2,
            v1 > 0,
            v2 > 0,
    ;
    lemma_algebra_disc(g, v1, v2, r, ee, d1, b2, c2, a2, d);
    assert(g.b == b1 + 2 * v1 * kk) by (nonlinear_arith)
        requires
            g.b == b2 + 2 * v2 * r,
            n + v2 * r == v1 * kk,
            b1 == s - n,
            b2 == s + n,
    ;
    assert(a1 / d1 > 0);
    assert(g.b - b1 == kk * (2 * v1)) by (nonlinear_arith)
        requires
            g.b == b1 + 2 * v1 * kk,
    ;
    lemma_mod_multiples_basic(kk, 2 * v1);
}

proof fn lemma_algebra_first(
    d1: int,
    n: int,
    v1: int,
    v2: int,
    rr: int,
    a1: int,
    a2: int,
    lam: int,
    mu: int,
    nu: int,
    s: int,
    c1: int,
    c2: int,
    k0: int,
)
    requires
        lam * a1 + mu * a2 + nu * s == d1,
        a1 == d1 * v1,
        a2 == d1 * v2,
        s * n == a2 * c2 - a1 * c1,
        rr == -mu * n - nu * c2,
        k0 == lam * n - nu * c1,
    ensures
        d1 * (n + v2 * rr) == d1 * (v1 * k0),
{
    assert(d1 * (n + v2 * rr) == d1 * n + a2 * rr) by (nonlinear_arith)
        requires
            a2 == d1 * v2,
    ;
    assert(a2 * rr == -((mu * a2) * n) - nu * (a2 * c2)) by (nonlinear_arith)
        requires
            rr == -mu * n - nu * c2,
    ;
    assert(d1 * n == lam * a1 * n + (mu * a2) * n + nu * (s * n)) by (nonlinear_arith)
        requires
            lam * a1 + mu * a2 + nu * s == d1,
    ;
    assert(nu * (s * n) - nu * (a2 * c2) == -(nu * (a1 * c1))) by (nonlinear_arith)
        requires
            s * n == a2 * c2 - a1 * c1,
    ;
    assert(lam * (d1 * v1) * n == d1 * (v1 * (lam * n))) by (nonlinear_arith);
    assert(nu * ((d1 * v1) * c1) == d1 * (v1 * (nu * c1))) by (nonlinear_arith);
    assert(d1 * (v1 * (lam * n)) - d1 * (v1 * (nu * c1)) == d1 * (v1 * (lam * n - nu * c1)))
        by (nonlinear_arith);
}

proof fn lemma_algebra_second(
    d1: int,
    n: int,
    v1: int,
    rr: int,
    a1: int,
    a2: int,
    lam: int,
    mu: int,
    nu: int,
    s: int,
    c1: int,
    c2: int,
    m0: int,
)
    requires
        lam * a1 + mu * a2 + nu * s == d1,
        a1 == d1 * v1,
        s * n == a2 * c2 - a1 * c1,
        rr == -mu * n - nu * c2,
        m0 == lam * c2 + mu * c1,
    ensures
        d1 * c2 + rr * s == v1 * (d1 * m0),
{
    assert(d1 * c2 == lam * a1 * c2 + mu * (a2 * c2) + nu * s * c2) by (nonlinear_arith)
        requires
            lam * a1 + mu * a2 + nu * s == d1,
    ;
    assert(rr * s == -(mu * (s * n)) - nu * s * c2) by (nonlinear_arith)
        requires
            rr == -mu * n - nu * c2,
    ;
    assert(mu * (a2 * c2) - mu * (s * n) == mu * (a1 * c1)) by (nonlinear_arith)
        requires
            s * n == a2 * c2 - a1 * c1,
    ;
    assert(lam * (d1 * v1) * c2 == v1 * (d1 * (lam * c2))) by (nonlinear_arith);
    assert(mu * ((d1 * v1) * c1) == v1 * (d1 * (mu * c1))) by (nonlinear_arith);
    assert(v1 * (d1 * (lam * c2)) + v1 * (d1 * (mu * c1)) == v1 * (d1 * (lam * c2 + mu * c1)))
        by (nonlinear_arith);
}

proof fn lemma_algebra_disc(
    g: IntForm,
    v1: int,
    v2: int,
    r: int,
    ee: int,
    d1: int,
    b2: int,
    c2: int,
    a2: int,
    d: int,
)
    requires
        g.a == v1 * v2,
        g.b == b2 + 2 * v2 * r,
        v1 * g.c == ee,
        ee == d1 * c2 + r * (b2 + v2 * r),
        a2 == d1 * v2,
        b2 * b2 - 4 * a2 * c2 == d,
    ensures
        disc(g) == d,
{
    assert(4 * g.a * g.c == 4 * v2 * ee) by (nonlinear_arith)
        requires
            g.a == v1 * v2,
            v1 * g.c == ee,
    ;
    assert(4 * v2 * (d1 * c2 + r * (b2 + v2 * r)) == 4 * v2 * (d1 * c2) + 4 * v2 * (r * (b2 + v2
        * r))) by (nonlinear_arith);
    assert(4 * v2 * (d1 * c2) == 4 * (d1 * v2) * c2) by (nonlinear_arith);
    assert(4 * v2 * (r * (b2 + v2 * r)) == 4 * v2 * r * b2 + 4 * v2 * v2 * r * r)
        by (nonlinear_arith);
    assert(g.b * g.b == b2 * b2 + 4 * v2 * r * b2 + 4 * v2 * v2 * r * r) by (nonlinear_arith)
        requires
            g.b == b2 + 2 * v2 * r,
    ;
}

/// Composition gives a reduced form of the same discriminant.
pub proof fn lemma_compose(d: int, f1: IntForm, f2: IntForm)
    requires
        valid_disc(d),
        is_form(d, f1),
        is_form(d, f2),
    ensures
        is_form(d, compose(f1, f2)),
        is_reduced(compose(f1, f2)),
{
    lemma_compose_raw(d, f1, f2);
    lemma_reduce(compose_raw(f1, f2));
}

/// The principal form is a reduced form of the discriminant.
pub proof fn lemma_identity(d: int)
    requires
        valid_disc(d),
    ensures
        is_form(d, identity(d)),
        is_reduced(identity(d)),
        identity(d).c >= 1,
{
    let b = d % 2;
    lemma_fundamental_div_mod(d, 4);
    lemma_fundamental_div_mod(d, 2);
    let q = d / 4;
    if d % 4 == 0 {
        assert(d == 2 * (2 * q));
        lemma_fundamental_div_mod_converse(d, 2, 2 * q, 0);
        assert(b == 0);
        lemma_fundamental_div_mod_converse(b - d, 4, -q, 0);
    } else {
        assert(d == 2 * (2 * q) + 1);
        lemma_fundamental_div_mod_converse(d, 2, 2 * q, 1);
        assert(b == 1);
        lemma_fundamental_div_mod_converse(b - d, 4, -q, 0);
    }
    let c = (b - d) / 4;
    assert(b - d == 4 * c);
    assert(b * b == b);
    assert(disc(identity(d)) == b * b - 4 * 1 * c);
}

/// The principal form of any number: `a == 1`, `b` is 0 or 1 and
/// `-d - 3 <= 4c <= 1 - d`.
pub proof fn lemma_identity_bounds(d: int)
    ensures
        identity(d).a == 1,
        0 <= identity(d).b <= 1,
        -d - 3 <= 4 * identity(d).c <= 1 - d,
{
    let b = d % 2;
    let n = b - d;
    assert(0 <= b <= 1);
    lemma_fundamental_div_mod(n, 4);
    assert(0 <= n % 4 < 4);
    assert(4 * (n / 4) == n - n % 4);
}

/// Reduction of a form with `a > 0`, of any discriminant, keeps `a > 0` and
/// the discriminant, never makes `a` larger, and gives `-a < b <= a`.
pub proof fn lemma_reduce_general(f: IntForm)
    requires
        f.a > 0,
    ensures
        reduce(f).a > 0,
        reduce(f).a <= f.a,
        disc(reduce(f)) == disc(f),
        is_normal(reduce(f)),
    decreases f.a,
{
    let g = normalize(f);
    lemma_normalize(f);
    if 0 < g.c && g.c < g.a {
        let h = IntForm { a: g.c, b: -g.b, c: g.a };
        assert(disc(h) == disc(g)) by (nonlinear_arith)
            requires
                h.a == g.c,
                h.b == -g.b,
                h.c == g.a,
        ;
        lemma_reduce_general(h);
    } else if g.a == g.c && g.b < 0 {
        let h = IntForm { a: g.a, b: -g.b, c: g.c };
        assert(disc(h) == disc(g)) by (nonlinear_arith)
            requires
                h.a == g.a,
                h.b == -g.b,
                h.c == g.c,
        ;
    }
}

/// A prime form, of any discriminant, has `0 < a <= p`, `-a < b <= a` and
/// the discriminant.
pub proof fn lemma_prime_form_general(d: int, p: int)
    requires
        prime_form(d, p) is Some,
    ensures
        prime_form(d, p).unwrap().a > 0,
        prime_form(d, p).unwrap().a <= p,
        is_normal(prime_form(d, p).unwrap()),
        disc(prime_form(d, p).unwrap()) == d,
{
    let b = first_root(d, p, 0).unwrap();
    lemma_first_root(d, p, 0);
    let x = b * b - d;
    lemma_fundamental_div_mod(x, 4 * p);
    let c = x / (4 * p);
    let f = IntForm { a: p, b: b, c: c };
    assert(disc(f) == d) by (nonlinear_arith)
        requires
            x == b * b - d,
            x == (4 * p) * c + x % (4 * p),
            x % (4 * p) == 0,
            f.a == p,
            f.b == b,
            f.c == c,
    ;
    lemma_reduce_general(f);
}

/// `b^2 - 4m` is `0` or `1` modulo 4.
pub proof fn lemma_square_minus_four(b: int, m: int)
    ensures
        (b * b - 4 * m) % 4 == 0 || (b * b - 4 * m) % 4 == 1,
{
    lemma_fundamental_div_mod(b, 2);
    let h = b / 2;
    if b % 2 == 0 {
        assert(b * b - 4 * m == 4 * (h * h - m)) by (nonlinear_arith)
            requires
                b == 2 * h,
        ;
        lemma_fundamental_div_mod_converse(b * b - 4 * m, 4, h * h - m, 0);
    } else {
        assert(b * b - 4 * m == 4 * (h * h + h - m) + 1) by (nonlinear_arith)
            requires
                b == 2 * h + 1,
        ;
        lemma_fundamental_div_mod_converse(b * b - 4 * m, 4, h * h + h - m, 1);
    }
}

/// A negative number that is the discriminant of a form is a valid
/// discriminant.
pub proof fn lemma_form_disc_valid(d: int, f: IntForm)
    requires
        d < 0,
        is_form(d, f),
    ensures
        valid_disc(d),
{
    assert(4 * f.a * f.c == 4 * (f.a * f.c)) by (nonlinear_arith);
    lemma_square_minus_four(f.b, f.a * f.c);
}

/// A number that is neither `0` nor `1` modulo 4 has no prime forms.
pub proof fn lemma_no_prime_form(d: int, p: int)
    requires
        !(d % 4 == 0 || d % 4 == 1),
    ensures
        prime_form(d, p) is None,
{
    if p > 0 && first_root(d, p, 0) is Some {
        let b = first_root(d, p, 0).unwrap();
        lemma_first_root(d, p, 0);
        let x = b * b - d;
        lemma_fundamental_div_mod(x, 4 * p);
        let k = x / (4 * p);
        assert(x == (4 * p) * k);
        assert(d == b * b - 4 * (p * k)) by (nonlinear_arith)
            requires
                x == b * b - d,
                x == (4 * p) * k,
        ;
        lemma_square_minus_four(b, p * k);
    }
}

/// A number that is neither `0` nor `1` modulo 4 has no prime form in any list.
pub proof fn lemma_no_prime_index(d: int, list: Seq<u32>, i: int)
    requires
        !(d % 4 == 0 || d % 4 == 1),
    ensures
        next_prime_index(d, list, i) is None,
    decreases list.len() - i,
{
    if 0 <= i < list.len() {
        lemma_no_prime_form(d, list[i] as int);
        lemma_no_prime_index(d, list, i + 1);
    }
}

/// Composition of two forms of a discriminant, of any sign, gives a form of
/// that discriminant.
pub proof fn lemma_compose_form(d: int, f1: IntForm, f2: IntForm)
    requires
        is_form(d, f1),
        is_form(d, f2),
    ensures
        is_form(d, compose(f1, f2)),
{
    lemma_compose_raw(d, f1, f2);
    lemma_reduce_general(compose_raw(f1, f2));
}

/// The principal form of a number that is `0` or `1` modulo 4 is a form of
/// that discriminant.
pub proof fn lemma_identity_form(d: int)
    requires
        d % 4 == 0 || d % 4 == 1,
    ensures
        is_form(d, identity(d)),
{
    let b = d % 2;
    lemma_fundamental_div_mod(d, 4);
    lemma_fundamental_div_mod(d, 2);
    let q = d / 4;
    if d % 4 == 0 {
        assert(d == 2 * (2 * q));
        lemma_fundamental_div_mod_converse(d, 2, 2 * q, 0);
        lemma_fundamental_div_mod_converse(b - d, 4, -q, 0);
    } else {
        assert(d == 2 * (2 * q) + 1);
        lemma_fundamental_div_mod_converse(d, 2, 2 * q, 1);
        lemma_fundamental_div_mod_converse(b - d, 4, -q, 0);
    }
    let c = (b - d) / 4;
    assert(b - d == 4 * c);
    assert(b * b == b);
    assert(disc(identity(d)) == b * b - 4 * 1 * c);
}

/// The square of the principal form is the principal form, for any number.
pub proof fn lemma_square_identity(d: int)
    ensures
        square(identity(d)) == identity(d),
{
    let id = identity(d);
    let b = d % 2;
    lemma_xgcd_small(1);
    assert(xgcd(1, 1) == (1int, 0int, 1int));
    assert((b + b) / 2 == b);
    assert(b == 0 || b == 1);
    assert(xgcd(b, 1) == (1int, 0int, 1int)) by {
        if b == 0 {
            assert(xgcd(0, 1) == (1int, 0int, 1int));
        } else {
            assert(xgcd(1, 1) == (1int, 0int, 1int));
        }
    }
    assert(1int / 1 == 1);
    assert((0int) % 1 == 0);
    let raw = compose_raw(id, id);
    let s = (id.b + id.b) / 2;
    assert(s == b);
    let e1 = xgcd(id.a, id.a);
    assert(e1 == (1int, 0int, 1int));
    let e2 = xgcd(s, e1.0);
    assert(e2 == (1int, 0int, 1int));
    let r = (-(e2.2 * e1.1) * (id.b - s) - e2.1 * id.c) % 1;
    assert(r == 0);
    assert(id.a / e2.0 == 1);
    assert(raw.a == (id.a / e2.0) * (id.a / e2.0));
    assert(raw.b == id.b + 2 * (id.a / e2.0) * r);
    let v = id.a / e2.0;
    assert(v * v == 1 && 2 * v * r == 0) by (nonlinear_arith)
        requires
            v == 1,
            r == 0,
    ;
    let m = e2.0 * id.c + r * (id.b + v * r);
    assert(m == id.c) by (nonlinear_arith)
        requires
            e2.0 == 1,
            r == 0,
            m == e2.0 * id.c + r * (id.b + v * r),
    ;
    assert(v == 1);
    lemma_fundamental_div_mod_converse(m, 1, m, 0);
    assert(m / v == id.c);
    assert(raw.a == 1);
    assert(raw.b == b);
    assert(raw.c == id.c);
    assert(raw == id);
    assert((1 - b) / 2 == 0);
    assert(normalize(id) == id);
    lemma_reduce_unfold(id);
}

/// Powers of a form of a discriminant, of any sign, are forms of it.
pub proof fn lemma_pow_form_general(d: int, f: IntForm, e: nat)
    requires
        is_form(d, f),
    ensures
        is_form(d, pow(d, f, e)),
    decreases e,
{
    if e == 0 {
        assert(4 * f.a * f.c == 4 * (f.a * f.c)) by (nonlinear_arith);
        lemma_square_minus_four(f.b, f.a * f.c);
        lemma_identity_form(d);
    } else {
        lemma_pow_form_general(d, f, e / 2);
        let p = pow(d, f, e / 2);
        lemma_compose_form(d, p, p);
        if e % 2 == 1 {
            lemma_compose_form(d, square(p), f);
        }
    }
}

/// `xgcd(a, 1)`, `xgcd(a, a)` and `xgcd(0, a)` for positive `a`.
pub proof fn lemma_xgcd_small(a: int)
    requires
        a > 0,
    ensures
        xgcd(a, 1) == (1int, 0int, 1int),
        xgcd(a, a) == (a, 0int, 1int),
        xgcd(0, a) == (a, 0int, 1int),
        a > 1 ==> xgcd(1, a) == (1int, 1int, 0int),
{
    assert(a % 1 == 0);
    assert(xgcd(1, 0) == (1int, 1int, 0int));
    assert((a / 1) * 0 == 0);
    assert(xgcd(a, 1) == (1int, 0int, 1int));
    assert(a % a == 0) by {
        vstd::arithmetic::div_mod::lemma_mod_self_0(a);
    }
    assert(xgcd(a, 0) == (a, 1int, 0int));
    assert((a / a) * 0 == 0);
    assert(xgcd(a, a) == (a, 0int, 1int));
    assert(0int % a == 0) by {
        vstd::arithmetic::div_mod::lemma_small_mod(0, a as nat);
    }
    assert((0int / a) * 0 == 0);
    assert(xgcd(0, a) == (a, 0int, 1int));
    if a > 1 {
        assert(1int % a == 1) by {
            vstd::arithmetic::div_mod::lemma_small_mod(1, a as nat);
        }
        assert(1int / a == 0) by {
            lemma_fundamental_div_mod_converse(1, a, 0, 1);
        }
        assert(xgcd(1, a) == (1int, 1int, 0int));
    }
}

/// The principal form is neutral on the left.
pub proof fn lemma_compose_identity_left(d: int, f: IntForm)
    requires
        valid_disc(d),
        is_form(d, f),
        is_reduced(f),
    ensures
        compose(identity(d), f) == f,
{
    let id = identity(d);
    lemma_identity(d);
    let s = (id.b + f.b) / 2;
    lemma_xgcd_small(f.a);
    assert(xgcd(f.a, id.a) == (1int, 0int, 1int));
    assert(s % 1 == 0);
    assert(xgcd(1, 0) == (1int, 1int, 0int));
    assert((s / 1) * 0 == 0);
    assert(xgcd(s, 1) == (1int, 0int, 1int));
    let g = compose_raw(id, f);
    let e1 = xgcd(f.a, id.a);
    let e2 = xgcd(s, e1.0);
    assert(e2 == (1int, 0int, 1int));
    assert(id.a / e2.0 == 1);
    assert(f.a / e2.0 == f.a);
    assert(e2.2 * e1.1 == 0);
    let r = (-(e2.2 * e1.1) * (f.b - s) - e2.1 * f.c) % 1;
    assert(r == 0);
    assert(g.a == 1 * f.a);
    assert(g.b == f.b + 2 * f.a * 0);
    assert(1 * f.a == f.a);
    assert(g.a == f.a);
    assert(2 * f.a * 0 == 0) by (nonlinear_arith);
    assert(g.b == f.b);
    assert(g.c == (1 * f.c + 0 * (f.b + f.a * 0)) / 1);
    assert(1 * f.c + 0int * (f.b + f.a * 0) == f.c) by (nonlinear_arith);
    lemma_fundamental_div_mod_converse(f.c, 1, f.c, 0);
    assert(g.c == f.c);
    assert(g == f);
    lemma_reduce_reduced(f);
}

/// A reduced form with `a == 1` is the principal form.
pub proof fn lemma_principal_unique(d: int, f: IntForm)
    requires
        valid_disc(d),
        is_form(d, f),
        is_normal(f),
        f.a == 1,
    ensures
        f == identity(d),
{
    lemma_parity(f);
    lemma_identity(d);
    let id = identity(d);
    lemma_fundamental_div_mod(f.b - d, 2);
    lemma_fundamental_div_mod(d, 2);
    assert(f.b == 0 || f.b == 1);
    assert(f.b == d % 2);
    assert(f.c == id.c) by (nonlinear_arith)
        requires
            f.b * f.b - 4 * 1 * f.c == d,
            id.b * id.b - 4 * 1 * id.c == d,
            f.b == id.b,
    ;
}

/// The principal form is neutral on the right.
pub proof fn lemma_compose_identity_right(d: int, f: IntForm)
    requires
        valid_disc(d),
        is_form(d, f),
        is_reduced(f),
    ensures
        compose(f, identity(d)) == f,
{
    let id = identity(d);
    lemma_identity(d);
    if f.a == 1 {
        lemma_principal_unique(d, f);
        lemma_compose_identity_left(d, f);
    } else {
        let s = (f.b + id.b) / 2;
        lemma_xgcd_small(f.a);
        assert(xgcd(id.a, f.a) == (1int, 1int, 0int));
        assert(s % 1 == 0);
        assert(xgcd(1, 0) == (1int, 1int, 0int));
        assert((s / 1) * 0 == 0);
        assert(xgcd(s, 1) == (1int, 0int, 1int));
        lemma_compose_raw(d, f, id);
        let g = compose_raw(f, id);
        let e1 = xgcd(id.a, f.a);
        let e2 = xgcd(s, e1.0);
        assert(e2 == (1int, 0int, 1int));
        assert(f.a / e2.0 == f.a);
        assert(id.a / e2.0 == 1);
        assert(g.a == f.a * 1);
        assert(g.a == f.a);
        let k = (g.b - f.b) / (2 * f.a);
        lemma_exact_div(g.b - f.b, 2 * f.a);
        assert(g.b == f.b + 2 * f.a * k) by (nonlinear_arith)
            requires
                g.b - f.b == (2 * f.a) * k,
        ;
        lemma_normalize_congruent(g, f, k);
        lemma_reduce_reduced(f);
        lemma_reduce_via_normal(g, f);
    }
}

/// A form composed with its inverse gives the principal form.
pub proof fn lemma_compose_inverse(d: int, f: IntForm)
    requires
        valid_disc(d),
        is_form(d, f),
    ensures
        compose(f, inverse(f)) == identity(d),
{
    let a = f.a;
    let h = inverse(f);
    let id = identity(d);
    lemma_identity(d);
    lemma_xgcd_small(a);
    assert((f.b + h.b) / 2 == 0);
    assert(xgcd(h.a, f.a) == (a, 0int, 1int));
    assert(xgcd(0, a) == (a, 0int, 1int));
    let g = compose_raw(f, h);
    assert(a / a == 1) by {
        lemma_fundamental_div_mod_converse(a, a, 1, 0);
    }
    let e1 = xgcd(h.a, f.a);
    let e2 = xgcd(0, e1.0);
    assert(e2 == (a, 0int, 1int));
    assert(e2.2 * e1.1 == 0);
    let r = (-(e2.2 * e1.1) * (h.b - 0) - e2.1 * h.c) % 1;
    assert(r == 0);
    assert(g.a == 1 * 1);
    assert(g.b == h.b + 2 * 1 * 0);
    assert(g.a == 1);
    assert(g.b == -f.b);
    assert(g.c == (a * h.c + 0 * (h.b + 1 * 0)) / 1);
    assert(a * f.c + 0int * (h.b + 1 * 0) == a * f.c) by (nonlinear_arith);
    lemma_fundamental_div_mod_converse(a * f.c, 1, a * f.c, 0);
    assert(g.c == a * f.c);
    assert(disc(g) == d) by (nonlinear_arith)
        requires
            g.a == 1,
            g.b == -f.b,
            g.c == a * f.c,
            f.b * f.b - 4 * a * f.c == d,
    ;
    lemma_parity(f);
    lemma_fundamental_div_mod(f.b - d, 2);
    lemma_fundamental_div_mod(d, 2);
    let k = (-f.b - d % 2) / 2;
    lemma_fundamental_div_mod(-f.b - d % 2, 2);
    assert((-f.b - d % 2) % 2 == 0) by {
        let j = (f.b - d) / 2;
        let m = d / 2;
        assert(-f.b - d % 2 == 2 * (-j - m - d % 2));
        lemma_mod_multiples_basic(-j - m - d % 2, 2);
        assert((-j - m - d % 2) * 2 == 2 * (-j - m - d % 2));
    }
    assert(g.b == id.b + 2 * 1 * k);
    lemma_normalize_congruent(g, id, k);
    lemma_reduce_reduced(id);
    lemma_reduce_via_normal(g, id);
}

/// Small powers: `f^0` is principal, `f^1 == f` and `f^3` is the cube.
pub proof fn lemma_pow_small(d: int, f: IntForm)
    requires
        valid_disc(d),
        is_form(d, f),
        is_reduced(f),
    ensures
        pow(d, f, 0) == identity(d),
        square(identity(d)) == identity(d),
        pow(d, f, 1) == f,
        pow(d, f, 3) == cube(f),
{
    lemma_identity(d);
    lemma_compose_identity_left(d, identity(d));
    assert(pow(d, f, 1) == compose(square(pow(d, f, 0)), f));
    lemma_compose_identity_left(d, f);
    assert(pow(d, f, 3) == compose(square(pow(d, f, 1)), f));
}

/// A prime form is a reduced form of the discriminant.
pub proof fn lemma_prime_form(d: int, p: int)
    requires
        valid_disc(d),
        prime_form(d, p) is Some,
    ensures
        is_form(d, prime_form(d, p).unwrap()),
        is_reduced(prime_form(d, p).unwrap()),
{
    let b = first_root(d, p, 0).unwrap();
    lemma_first_root(d, p, 0);
    let m = 4 * p;
    let c = (b * b - d) / m;
    lemma_exact_div(b * b - d, m);
    let f = IntForm { a: p, b: b, c: c };
    assert(disc(f) == d) by (nonlinear_arith)
        requires
            b * b - d == m * c,
            m == 4 * p,
            disc(f) == b * b - 4 * p * c,
    ;
    lemma_reduce(f);
}

/// The root that `first_root` finds is one.
pub proof fn lemma_first_root(d: int, p: int, b: int)
    requires
        p > 0,
        first_root(d, p, b) is Some,
    ensures
        root_ok(d, p, first_root(d, p, b).unwrap()),
        b <= first_root(d, p, b).unwrap() <= p,
    decreases p + 1 - b,
{
    if b <= p && b >= 0 && !root_ok(d, p, b) {
        lemma_first_root(d, p, b + 1);
    }
}

/// What `next_prime_index` finds is an index of the list with a prime form,
/// and when none is found from 0, none is found from anywhere.
pub proof fn lemma_next_prime_index(d: int, list: Seq<u32>, i: int)
    ensures
        next_prime_index(d, list, i) matches Some(j) ==> i <= j < list.len() && 0 <= j
            && prime_form(d, list[j] as int) is Some,
        (i >= 0 && next_prime_index(d, list, i) is None) ==> forall|j: int|
            i <= j < list.len() ==> prime_form(d, #[trigger] list[j] as int) is None,
    decreases list.len() - i,
{
    if 0 <= i < list.len() && prime_form(d, list[i] as int) is None {
        lemma_next_prime_index(d, list, i + 1);
    }
}

/// Reduced forms of a discriminant have small coefficients:
/// `3 a^2 <= -d` and `4 c <= a^2 - d`.
pub proof fn lemma_reduced_bounds(d: int, f: IntForm)
    requires
        is_form(d, f),
        is_reduced(f),
    ensures
        3 * f.a * f.a <= -d,
        4 * f.c <= f.a * f.a - d,
        -f.a < f.b <= f.a,
        f.c >= f.a,
{
    let (a, b, c) = (f.a, f.b, f.c);
    assert(b * b <= a * a) by (nonlinear_arith)
        requires
            -a < b <= a,
    ;
    assert(4 * a * a <= 4 * a * c) by (nonlinear_arith)
        requires
            a <= c,
            a > 0,
    ;
    assert(4 * c <= 4 * a * c) by (nonlinear_arith)
        requires
            a >= 1,
            c >= 1,
    ;
    assert(3 * a * a <= -d && 4 * c <= a * a - d) by (nonlinear_arith)
        requires
            b * b <= a * a,
            4 * a * a <= 4 * a * c,
            4 * c <= 4 * a * c,
            b * b - 4 * a * c == d,
    ;
}

} // verus!
