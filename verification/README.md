qform
=====

Ideal class group arithmetic in imaginary quadratic number fields, written in
Verus: binary quadratic forms `(a, b, c)` of a discriminant `D = b^2 - 4ac`,
negative for the class group arithmetic, are composed, squared, cubed, raised to powers, inverted and
reduced, and every operation is proved against a mathematical model.

Layout
------

- `src/form.rs`: the model (`IntForm`, reduction, Dirichlet composition,
  the principal form, powers, prime forms, ambiguous forms) and its lemmas.
- `src/digits.rs`, `src/mpz.rs`, `src/radix.rs`: integers of any size, with
  the digit arithmetic done by `num-bigint`, and their decimal texts.
- `src/algo.rs`: the algorithms on forms of any size.
- `src/primes.rs`: the table of primes below 65536.
- `src/s64.rs`, `src/s128.rs`, `src/mpz_group.rs`: groups with 64-bit,
  128-bit and unbounded coefficients.
- `src/generic.rs`: the group that picks its arithmetic by the size of `D`.
- `src/sanity.rs`: the group that computes each result twice and keeps both.
- `src/laws.rs`: the group laws that the operations obey.
- `app/`: a timing driver.
