//! Integers written as text in a radix from 2 to 36.

use crate::mpz::Mpz;
use vstd::arithmetic::div_mod::lemma_fundamental_div_mod_converse;
use vstd::prelude::*;
use vstd::string::StrSliceExecFns;

verus! {

/// The white space that the text of a number may hold anywhere after its
/// first digit, and before its sign.
pub open spec fn is_space(c: char) -> bool {
    c == ' ' || c == '\t' || c == '\n' || c == '\x0B' || c == '\x0C' || c == '\r'
}

/// The value of a digit, letters in either case; 36 for what is no digit.
pub open spec fn digit_value(c: char) -> int {
    if '0' as int <= c as int <= '9' as int {
        c as int - '0' as int
    } else if 'a' as int <= c as int <= 'z' as int {
        c as int - 'a' as int + 10
    } else if 'A' as int <= c as int <= 'Z' as int {
        c as int - 'A' as int + 10
    } else {
        36
    }
}

/// The index of the first character at or after `i` that is no white space.
pub open spec fn skip_spaces(s: Seq<char>, i: int) -> int
    decreases s.len() - i,
{
    if 0 <= i < s.len() && is_space(s[i]) {
        skip_spaces(s, i + 1)
    } else {
        i
    }
}

/// The value of digits interleaved with white space.
pub open spec fn parse_digits(t: Seq<char>, radix: int) -> Option<int>
    decreases t.len(),
{
    if t.len() == 0 {
        Some(0)
    } else {
        match parse_digits(t.drop_last(), radix) {
            None => None,
            Some(v) => if is_space(t.last()) {
                Some(v)
            } else if digit_value(t.last()) < radix {
                Some(v * radix + digit_value(t.last()))
            } else {
                None
            },
        }
    }
}

/// The value of the text of an integer: white space, an optional `-`, a
/// digit, then digits and white space.
pub open spec fn parse_int(s: Seq<char>, radix: int) -> Option<int> {
    let i = skip_spaces(s, 0);
    let neg = i < s.len() && s[i] == '-';
    let j = if neg {
        i + 1
    } else {
        i
    };
    if j >= s.len() || digit_value(s[j]) >= radix {
        None
    } else {
        match parse_digits(s.subrange(j, s.len() as int), radix) {
            None => None,
            Some(v) => Some(if neg {
                -v
            } else {
                v
            }),
        }
    }
}

/// Whether the text holds a NUL character.
pub open spec fn has_nul(s: Seq<char>) -> bool {
    exists|i: int| 0 <= i < s.len() && s[i] == '\0'
}

/// The value of a decimal text; `None` where it holds a NUL character or is
/// no integer.
pub open spec fn read_decimal(s: Seq<char>) -> Option<int> {
    if has_nul(s) {
        None
    } else {
        parse_int(s, 10)
    }
}

/// The character of a digit, lower case letters from 10 on.
pub open spec fn digit_char(d: int) -> char {
    if d < 10 {
        ('0' as int + d) as char
    } else {
        ('a' as int + d - 10) as char
    }
}

/// The digits of a natural number, most significant first.
pub open spec fn nat_text(v: nat, radix: nat) -> Seq<char>
    decreases v,
{
    if radix < 2 || v < radix {
        seq![digit_char(v as int)]
    } else {
        proof {
            vstd::arithmetic::div_mod::lemma_div_decreases(v as int, radix as int);
        }
        nat_text(v / radix, radix).push(digit_char((v % radix) as int))
    }
}

/// The text of an integer: a `-` for a negative one, then its digits.
pub open spec fn int_text(v: int, radix: nat) -> Seq<char> {
    if v < 0 {
        seq!['-'] + nat_text((-v) as nat, radix)
    } else {
        nat_text(v as nat, radix)
    }
}

/// `String::push`: appends one character.
#[verifier::external_body]
fn push_char(s: &mut String, c: char)
    ensures
        final(s)@ == old(s)@.push(c),
{
    s.push(c)
}

fn is_space_exec(c: char) -> (r: bool)
    ensures
        r == is_space(c),
{
    c == ' ' || c == '\t' || c == '\n' || c == '\x0B' || c == '\x0C' || c == '\r'
}

fn digit_value_exec(c: char) -> (r: u32)
    ensures
        r == digit_value(c),
{
    if '0' <= c && c <= '9' {
        (c as u32) - ('0' as u32)
    } else if 'a' <= c && c <= 'z' {
        (c as u32) - ('a' as u32) + 10
    } else if 'A' <= c && c <= 'Z' {
        (c as u32) - ('A' as u32) + 10
    } else {
        36
    }
}

/// Whether the text holds a NUL character.
pub fn contains_nul(s: &str) -> (r: bool)
    ensures
        r == has_nul(s@),
{
    let n = s.unicode_len();
    let mut i: usize = 0;
    while i < n
        invariant
            n == s@.len(),
            i <= n,
            forall|j: int| 0 <= j < i ==> s@[j] != '\0',
        decreases n - i,
    {
        if s.get_char(i) == '\0' {
            return true;
        }
        i = i + 1;
    }
    false
}

/// The value of the text of an integer in the radix, or `None` where the
/// text is no such integer.
pub fn parse_text(s: &str, radix: u32) -> (r: Option<Mpz>)
    requires
        2 <= radix <= 36,
    ensures
        match r {
            Some(v) => parse_int(s@, radix as int) == Some(v@),
            None => parse_int(s@, radix as int) is None,
        },
{
    let ghost t = s@;
    let n = s.unicode_len();
    let mut i: usize = 0;
    while i < n && is_space_exec(s.get_char(i))
        invariant
            t == s@,
            n == t.len(),
            i <= n,
            skip_spaces(t, i as int) == skip_spaces(t, 0),
        decreases n - i,
    {
        i = i + 1;
    }
    assert(skip_spaces(t, i as int) == i);
    let neg = i < n && s.get_char(i) == '-';
    let j = if neg {
        i + 1
    } else {
        i
    };
    if j >= n || digit_value_exec(s.get_char(j)) >= radix {
        return None;
    }
    let mut v = Mpz::new();
    let mut k = j;
    let ghost tail = t.subrange(j as int, t.len() as int);
    assert(parse_int(t, radix as int) == (match parse_digits(tail, radix as int) {
        None => None,
        Some(w) => Some(if neg {
            -w
        } else {
            w
        }),
    }));
    proof {
        assert(t.subrange(j as int, j as int) =~= Seq::<char>::empty());
    }
    while k < n
        invariant
            t == s@,
            n == t.len(),
            j <= k <= n,
            2 <= radix <= 36,
            tail == t.subrange(j as int, t.len() as int),
            parse_int(t, radix as int) == (match parse_digits(tail, radix as int) {
                None => None,
                Some(w) => Some(if neg {
                    -w
                } else {
                    w
                }),
            }),
            parse_digits(t.subrange(j as int, k as int), radix as int) == Some(v@),
        decreases n - k,
    {
        let c = s.get_char(k);
        proof {
            let u = t.subrange(j as int, k + 1);
            assert(u.drop_last() =~= t.subrange(j as int, k as int));
            assert(u.last() == c);
        }
        if !is_space_exec(c) {
            let dv = digit_value_exec(c);
            if dv >= radix {
                proof {
                    lemma_parse_digits_none(t, j as int, k as int + 1, radix as int);
                }
                return None;
            }
            v = v.mul_i64(radix as i64).add_i64(dv as i64);
        }
        k = k + 1;
    }
    proof {
        assert(t.subrange(j as int, n as int) =~= t.subrange(j as int, t.len() as int));
    }
    if neg {
        Some(v.neg())
    } else {
        Some(v)
    }
}

/// Once the digits fail, the longer texts fail too.
proof fn lemma_parse_digits_none(t: Seq<char>, j: int, k: int, radix: int)
    requires
        0 <= j <= k <= t.len(),
        parse_digits(t.subrange(j, k), radix) is None,
    ensures
        parse_digits(t.subrange(j, t.len() as int), radix) is None,
    decreases t.len() - k,
{
    if k < t.len() {
        let u = t.subrange(j, k + 1);
        assert(u.drop_last() =~= t.subrange(j, k));
        lemma_parse_digits_none(t, j, k + 1, radix);
    }
}

fn digit_char_exec(d: u32) -> (c: char)
    requires
        d < 36,
    ensures
        c == digit_char(d as int),
{
    if d < 10 {
        ((48 + d) as u8) as char
    } else {
        ((97 + d - 10) as u8) as char
    }
}

/// Appends the digits of a natural number.
fn push_nat_text(out: &mut String, v: &Mpz, radix: u32)
    requires
        v@ >= 0,
        2 <= radix <= 36,
    ensures
        final(out)@ == old(out)@ + nat_text(v@ as nat, radix as nat),
    decreases v@,
{
    let r = Mpz::from_i64(radix as i64);
    if v.lt(&r) {
        let d = v.to_i64() as u32;
        push_char(out, digit_char_exec(d));
        assert(final(out)@ =~= old(out)@ + nat_text(v@ as nat, radix as nat));
    } else {
        let (q, m) = v.fdiv_qr(&r);
        proof {
            vstd::arithmetic::div_mod::lemma_div_decreases(v@, radix as int);
            vstd::arithmetic::div_mod::lemma_div_pos_is_pos(v@, radix as int);
        }
        push_nat_text(out, &q, radix);
        let d = m.to_i64() as u32;
        push_char(out, digit_char_exec(d));
        assert(final(out)@ =~= old(out)@ + nat_text(v@ as nat, radix as nat));
    }
}

/// The text of an integer in the radix.
pub fn int_to_text(v: &Mpz, radix: u32) -> (r: String)
    requires
        2 <= radix <= 36,
    ensures
        r@ == int_text(v@, radix as nat),
{
    let mut out = String::new();
    if v.is_negative() {
        push_char(&mut out, '-');
        push_nat_text(&mut out, &v.neg(), radix);
    } else {
        push_nat_text(&mut out, v, radix);
    }
    out
}

/// Why a text is no integer in a radix.
#[derive(Debug, Clone, Copy, PartialEq, Eq, Structural)]
pub enum ParseMpzError {
    /// The text is no integer in the radix.
    InvalidInput,
    /// The radix lies outside `2..=36`.
    InvalidRadix,
    /// The text holds a NUL character.
    InteriorNul,
}

/// The outcome of reading a text in a radix: the value, or why it fails.
pub open spec fn read_result(value: Seq<char>, radix: int) -> Result<int, ParseMpzError> {
    if !(2 <= radix <= 36) {
        Err(ParseMpzError::InvalidRadix)
    } else if has_nul(value) {
        Err(ParseMpzError::InteriorNul)
    } else {
        match parse_int(value, radix) {
            Some(v) => Ok(v),
            None => Err(ParseMpzError::InvalidInput),
        }
    }
}

impl Mpz {
    /// Reads the integer that a text gives in a radix.
    pub fn from_str_radix(value: &str, radix: u32) -> (r: Result<Mpz, ParseMpzError>)
        ensures
            match r {
                Ok(x) => read_result(value@, radix as int) == Ok::<int, ParseMpzError>(x@),
                Err(e) => read_result(value@, radix as int) == Err::<int, ParseMpzError>(e),
            },
    {
        if radix < 2 || radix > 36 {
            return Err(ParseMpzError::InvalidRadix);
        }
        if contains_nul(value) {
            return Err(ParseMpzError::InteriorNul);
        }
        match parse_text(value, radix) {
            Some(x) => Ok(x),
            None => Err(ParseMpzError::InvalidInput),
        }
    }

    /// Sets the value to the integer that a text gives in a radix; where the
    /// text gives none, the value stays as it was.
    pub fn set_str_radix(&mut self, value: &str, radix: u32) -> (r: Result<(), ParseMpzError>)
        ensures
            match read_result(value@, radix as int) {
                Ok(x) => r == Ok::<(), ParseMpzError>(()) && final(self)@ == x,
                Err(e) => r == Err::<(), ParseMpzError>(e) && final(self)@ == old(self)@,
            },
    {
        match Mpz::from_str_radix(value, radix) {
            Ok(x) => {
                *self = x;
                Ok(())
            },
            Err(e) => Err(e),
        }
    }

    /// The text of the value in a radix, with lower case letters.
    pub fn to_string_radix(&self, radix: u32) -> (r: String)
        requires
            2 <= radix <= 36,
        ensures
            r@ == int_text(self@, radix as nat),
    {
        int_to_text(self, radix)
    }
}

/// A character that is the canonical digit of its value in the radix: a
/// decimal digit, or a lower case letter.
pub open spec fn is_canonical_digit(c: char, radix: int) -> bool {
    digit_value(c) < radix && digit_char(digit_value(c)) == c
}

/// Canonical digits: at least one, all canonical, and no leading zero.
pub open spec fn canonical_digits(t: Seq<char>, radix: int) -> bool {
    &&& t.len() > 0
    &&& forall|i: int| 0 <= i < t.len() ==> is_canonical_digit(#[trigger] t[i], radix)
    &&& t.len() > 1 ==> t[0] != '0'
}

/// The canonical text of an integer: canonical digits, after a `-` for a
/// negative one; no white space and no `-0`.
pub open spec fn canonical_text(s: Seq<char>, radix: int) -> bool {
    if s.len() > 0 && s[0] == '-' {
        canonical_digits(s.subrange(1, s.len() as int), radix) && s.subrange(1, s.len() as int)
            != seq!['0']
    } else {
        canonical_digits(s, radix)
    }
}

/// Canonical digits read as a number whose digits they are.
pub proof fn lemma_canonical_digits(t: Seq<char>, radix: int)
    requires
        2 <= radix <= 36,
        canonical_digits(t, radix),
    ensures
        parse_digits(t, radix) is Some,
        parse_digits(t, radix).unwrap() >= 0,
        nat_text(parse_digits(t, radix).unwrap() as nat, radix as nat) == t,
        t[0] != '0' ==> parse_digits(t, radix).unwrap() >= 1,
        t.len() > 1 ==> parse_digits(t, radix).unwrap() >= radix,
    decreases t.len(),
{
    let c = t.last();
    assert(is_canonical_digit(t[t.len() - 1], radix));
    let dv = digit_value(c);
    assert(0 <= dv < radix);
    lemma_digit_char(dv);
    assert(digit_char(0) == '0');
    let u = t.drop_last();
    if t.len() == 1 {
        assert(u =~= Seq::<char>::empty());
        assert(parse_digits(u, radix) == Some(0int));
        assert(parse_digits(t, radix) == Some(0 * radix + dv));
        assert(nat_text(dv as nat, radix as nat) =~= t);
        assert(t[0] == c);
    } else {
        assert forall|i: int| 0 <= i < u.len() implies is_canonical_digit(#[trigger] u[i], radix) by {
            assert(u[i] == t[i]);
        }
        assert(u[0] == t[0]);
        lemma_canonical_digits(u, radix);
        let w = parse_digits(u, radix).unwrap();
        let v = w * radix + dv;
        assert(parse_digits(t, radix) == Some(v));
        assert(v >= radix) by (nonlinear_arith)
            requires
                w >= 1,
                dv >= 0,
                v == w * radix + dv,
                radix >= 2,
        ;
        lemma_fundamental_div_mod_converse(v, radix, w, dv);
        assert(nat_text(v as nat, radix as nat) == nat_text(w as nat, radix as nat).push(
            digit_char(dv),
        ));
        assert(u.push(c) =~= t);
    }
}

/// A canonical text of an integer reads back, and is printed again as the
/// same text.
pub proof fn lemma_canonical_text(s: Seq<char>, radix: int)
    requires
        2 <= radix <= 36,
        canonical_text(s, radix),
    ensures
        read_result(s, radix) is Ok,
        int_text(read_result(s, radix)->Ok_0, radix as nat) == s,
{
    let neg = s.len() > 0 && s[0] == '-';
    let t = if neg {
        s.subrange(1, s.len() as int)
    } else {
        s
    };
    lemma_canonical_digits(t, radix);
    let v = parse_digits(t, radix).unwrap();
    assert forall|i: int| 0 <= i < s.len() implies s[i] != '\0' by {
        if neg && i == 0 {
        } else {
            let k = if neg {
                i - 1
            } else {
                i
            };
            assert(t[k] == s[i]);
            assert(is_canonical_digit(t[k], radix));
            lemma_digit_char(digit_value(t[k]));
        }
    }
    assert(!has_nul(s));
    assert(is_canonical_digit(t[0], radix));
    lemma_digit_char(digit_value(t[0]));
    if neg {
        assert(!is_space(s[0]));
        assert(skip_spaces(s, 0) == 0);
        assert(s[1] == t[0]);
        if t.len() == 1 {
            assert(t[0] != '0') by {
                if t[0] == '0' {
                    assert(t =~= seq!['0']);
                }
            }
        }
        assert(v >= 1);
        assert(parse_int(s, radix) == Some(-v));
        assert(int_text(-v, radix as nat) =~= seq!['-'] + t);
        assert(seq!['-'] + t =~= s);
    } else {
        assert(s[0] == t[0]);
        assert(skip_spaces(s, 0) == 0);
        assert(s.subrange(0, s.len() as int) =~= s);
        assert(parse_int(s, radix) == Some(v));
    }
}

/// The upper case of a character: a lower case ASCII letter becomes its
/// capital; every other character stays.
pub open spec fn upper_char(c: char) -> char {
    if 'a' as int <= c as int <= 'z' as int {
        (c as int - 32) as char
    } else {
        c
    }
}

/// The text with every lower case ASCII letter made a capital.
pub open spec fn to_upper(s: Seq<char>) -> Seq<char> {
    Seq::new(s.len(), |i: int| upper_char(s[i]))
}

proof fn lemma_upper_char(c: char)
    ensures
        digit_value(upper_char(c)) == digit_value(c),
        is_space(upper_char(c)) == is_space(c),
        (upper_char(c) == '-') == (c == '-'),
        (upper_char(c) == '\0') == (c == '\0'),
{
    if 'a' as int <= c as int <= 'z' as int {
        let u = upper_char(c);
        assert(u as int == c as int - 32);
    }
}

proof fn lemma_upper_skip_spaces(s: Seq<char>, i: int)
    ensures
        skip_spaces(to_upper(s), i) == skip_spaces(s, i),
    decreases s.len() - i,
{
    if 0 <= i < s.len() {
        lemma_upper_char(s[i]);
        lemma_upper_skip_spaces(s, i + 1);
    }
}

proof fn lemma_upper_digits(t: Seq<char>, radix: int)
    ensures
        parse_digits(to_upper(t), radix) == parse_digits(t, radix),
    decreases t.len(),
{
    if t.len() > 0 {
        assert(to_upper(t).drop_last() =~= to_upper(t.drop_last()));
        lemma_upper_digits(t.drop_last(), radix);
        lemma_upper_char(t.last());
    }
}

proof fn lemma_skip_bounds(s: Seq<char>, i: int)
    requires
        0 <= i,
    ensures
        i <= skip_spaces(s, i),
        i <= s.len() ==> skip_spaces(s, i) <= s.len(),
    decreases s.len() - i,
{
    if 0 <= i < s.len() && is_space(s[i]) {
        lemma_skip_bounds(s, i + 1);
    }
}

/// A text and its upper case version read alike in every radix.
pub proof fn lemma_read_upper(s: Seq<char>, radix: int)
    ensures
        read_result(to_upper(s), radix) == read_result(s, radix),
{
    let u = to_upper(s);
    assert(has_nul(u) == has_nul(s)) by {
        if has_nul(s) {
            let i = choose|i: int| 0 <= i < s.len() && s[i] == '\0';
            lemma_upper_char(s[i]);
            assert(u[i] == '\0');
        }
        if has_nul(u) {
            let i = choose|i: int| 0 <= i < u.len() && u[i] == '\0';
            lemma_upper_char(s[i]);
            assert(s[i] == '\0');
        }
    }
    lemma_upper_skip_spaces(s, 0);
    lemma_skip_bounds(s, 0);
    let i = skip_spaces(s, 0);
    if 0 <= i < s.len() {
        lemma_upper_char(s[i]);
    }
    let neg = i < s.len() && s[i] == '-';
    let j = if neg {
        i + 1
    } else {
        i
    };
    if 0 <= j < s.len() {
        lemma_upper_char(s[j]);
    }
    if 0 <= j <= s.len() {
        assert(u.subrange(j, u.len() as int) =~= to_upper(s.subrange(j, s.len() as int)));
        lemma_upper_digits(s.subrange(j, s.len() as int), radix);
    }
    assert(parse_int(u, radix) == parse_int(s, radix));
}

/// A digit's character reads back as the digit.
pub proof fn lemma_digit_char(d: int)
    requires
        0 <= d < 36,
    ensures
        digit_value(digit_char(d)) == d,
        !is_space(digit_char(d)),
        digit_char(d) != '-',
        digit_char(d) != '\0',
{
    if d < 10 {
        assert(digit_char(d) as int == '0' as int + d);
    } else {
        assert(digit_char(d) as int == 'a' as int + d - 10);
    }
}

/// The digits of a natural number read back as that number, and are all digits.
pub proof fn lemma_nat_text(v: nat, radix: nat)
    requires
        2 <= radix <= 36,
    ensures
        parse_digits(nat_text(v, radix), radix as int) == Some(v as int),
        nat_text(v, radix).len() > 0,
        forall|i: int|
            0 <= i < nat_text(v, radix).len() ==> digit_value(#[trigger] nat_text(v, radix)[i])
                < radix && !is_space(nat_text(v, radix)[i]) && nat_text(v, radix)[i] != '-'
                && nat_text(v, radix)[i] != '\0',
    decreases v,
{
    let t = nat_text(v, radix);
    if v < radix {
        lemma_digit_char(v as int);
        assert(t.drop_last() =~= Seq::<char>::empty());
        assert(parse_digits(t.drop_last(), radix as int) == Some(0int));
        assert(0 * radix + v == v);
    } else {
        vstd::arithmetic::div_mod::lemma_div_decreases(v as int, radix as int);
        let q = v / radix;
        let m = v % radix;
        lemma_nat_text(q, radix);
        vstd::arithmetic::div_mod::lemma_mod_bound(v as int, radix as int);
        lemma_digit_char(m as int);
        vstd::arithmetic::div_mod::lemma_fundamental_div_mod(v as int, radix as int);
        assert(t.drop_last() =~= nat_text(q, radix));
        assert(t.last() == digit_char(m as int));
        assert(q * radix + m == v) by (nonlinear_arith)
            requires
                v == radix * q + m,
        ;
        assert forall|i: int| 0 <= i < t.len() implies digit_value(#[trigger] t[i]) < radix
            && !is_space(t[i]) && t[i] != '-' && t[i] != '\0' by {
            if i < t.len() - 1 {
                assert(t[i] == nat_text(q, radix)[i]);
            }
        }
    }
}

/// The text of an integer reads back as that integer: text and reading are
/// inverse.
pub proof fn lemma_text_roundtrip(v: int, radix: nat)
    requires
        2 <= radix <= 36,
    ensures
        read_result(int_text(v, radix), radix as int) == Ok::<int, ParseMpzError>(v),
{
    let m: nat = if v < 0 {
        (-v) as nat
    } else {
        v as nat
    };
    lemma_nat_text(m, radix);
    let n = nat_text(m, radix);
    let t = int_text(v, radix);
    if v < 0 {
        assert(t =~= seq!['-'] + n);
        assert(t[0] == '-');
        assert(skip_spaces(t, 0) == 0);
        assert(t[1] == n[0]);
        assert(t.subrange(1, t.len() as int) =~= n);
        assert forall|i: int| 0 <= i < t.len() implies t[i] != '\0' by {
            if i > 0 {
                assert(t[i] == n[i - 1]);
            }
        }
    } else {
        assert(t == n);
        assert(!is_space(t[0]));
        assert(skip_spaces(t, 0) == 0);
        assert(t.subrange(0, t.len() as int) =~= n);
    }
    assert(!has_nul(t));
}

} // verus!
