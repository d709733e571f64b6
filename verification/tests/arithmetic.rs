use qform::{
    GenBackend, GenCoefficients, GenGroup, Mpz, MpzGroup, ParseMpzError, S128Form, S128Group,
    S64Form, S64Group, SanityGroup,
};

fn mpz(text: &str) -> Mpz {
    Mpz::from_str_radix(text, 10).expect("decimal integer")
}

fn dec(x: &Mpz) -> String {
    x.to_string_radix(10)
}

// ---------------------------------------------------------------------------
// The principal form, composition, inverses and powers.
// ---------------------------------------------------------------------------

#[test]
fn identity_is_principal_form_for_several_discriminants() {
    for (d, b, c) in [(-3_i64, 1, 1), (-4, 0, 1), (-23, 1, 6), (-84, 0, 21), (-47, 1, 12)] {
        let group = S64Group::new(d).expect("group");
        let id = group.identity();
        assert_eq!(id, S64Form { a: 1, b, c });
        assert!(group.is_id(&id));
        assert!(group.contains(&id));
    }
}

#[test]
fn identity_is_neutral_on_forms_of_discriminant_minus_47() {
    let group = S64Group::new(-47).expect("group");
    let id = group.identity();
    for f in [
        S64Form { a: 2, b: 1, c: 6 },
        S64Form { a: 2, b: -1, c: 6 },
        S64Form { a: 3, b: 1, c: 4 },
        S64Form { a: 3, b: -1, c: 4 },
    ] {
        assert_eq!(group.compose(&id, &f), f);
        assert_eq!(group.compose(&f, &id), f);
    }
}

#[test]
fn inverse_composes_to_identity_on_both_sides() {
    let group = S64Group::new(-47).expect("group");
    let f = S64Form { a: 3, b: 1, c: 4 };
    let mut inv = f;
    group.inverse(&mut inv);
    assert_eq!(inv, S64Form { a: 3, b: -1, c: 4 });
    assert!(group.is_id(&group.compose(&f, &inv)));
    assert!(group.is_id(&group.compose(&inv, &f)));
    let mut back = inv;
    group.inverse(&mut back);
    assert_eq!(back, f);
}

#[test]
fn powers_of_a_prime_form_of_discriminant_minus_47() {
    // The class group of discriminant -47 is cyclic of order 5.
    let group = S64Group::new(-47).expect("group");
    let f = group.prime_form(2).expect("prime form");
    assert_eq!(f, S64Form { a: 2, b: 1, c: 6 });
    let expected = [
        S64Form { a: 1, b: 1, c: 12 },
        S64Form { a: 2, b: 1, c: 6 },
        S64Form { a: 3, b: -1, c: 4 },
        S64Form { a: 3, b: 1, c: 4 },
        S64Form { a: 2, b: -1, c: 6 },
        S64Form { a: 1, b: 1, c: 12 },
        S64Form { a: 2, b: 1, c: 6 },
    ];
    for (e, want) in expected.iter().enumerate() {
        assert_eq!(group.pow_u32(&f, e as u32), *want, "power {e}");
    }
    assert_eq!(group.square(&f), expected[2]);
    assert_eq!(group.cube(&f), expected[3]);
    assert!(group.is_id(&group.pow_u32(&f, 1000)));
}

#[test]
fn cube_of_a_prime_form_of_discriminant_minus_23_is_identity() {
    let group = S64Group::new(-23).expect("group");
    let f = group.prime_form(2).expect("prime form");
    assert_eq!(group.square(&f), S64Form { a: 2, b: -1, c: 3 });
    assert_eq!(group.cube(&f), S64Form { a: 1, b: 1, c: 6 });
}

#[test]
fn composition_stays_in_the_group() {
    let group = S64Group::new(-47).expect("group");
    let f = S64Form { a: 2, b: 1, c: 6 };
    let g = S64Form { a: 3, b: -1, c: 4 };
    let h = group.compose(&f, &g);
    assert!(group.contains(&h));
    assert_eq!(h, S64Form { a: 3, b: 1, c: 4 });
    assert!(group.contains(&group.cube(&h)));
}

#[test]
fn reduction_finds_the_reduced_form_and_is_idempotent() {
    let group = S64Group::new(-23).expect("group");
    let mut f = S64Form { a: 6, b: 7, c: 3 };
    assert!(group.contains(&f));
    group.reduce(&mut f);
    assert_eq!(f, S64Form { a: 2, b: 1, c: 3 });
    group.reduce(&mut f);
    assert_eq!(f, S64Form { a: 2, b: 1, c: 3 });

    let mut g = S128Form { a: 6, b: 7, c: 3 };
    let group128 = S128Group::new(-23).expect("group");
    group128.reduce(&mut g);
    assert_eq!(g, S128Form { a: 2, b: 1, c: 3 });
}

#[test]
fn contains_checks_the_discriminant_and_sign() {
    let group = S64Group::new(-23).expect("group");
    assert!(group.contains(&S64Form { a: 2, b: 1, c: 3 }));
    assert!(!group.contains(&S64Form { a: 2, b: 1, c: 4 }));
    assert!(!group.contains(&S64Form { a: -2, b: 1, c: -3 }));
}

// ---------------------------------------------------------------------------
// Prime forms.
// ---------------------------------------------------------------------------

#[test]
fn prime_forms_of_discriminant_minus_23() {
    let group = S64Group::new(-23).expect("group");
    assert_eq!(group.prime_form(2), Some(S64Form { a: 2, b: 1, c: 3 }));
    assert_eq!(group.prime_form(3), Some(S64Form { a: 2, b: -1, c: 3 }));
    assert_eq!(group.prime_form(5), None);
    assert_eq!(group.prime_form(0), None);
    assert_eq!(group.prime_form(-3), None);
    for p in [2, 3, 13, 23] {
        let f = group.prime_form(p).expect("prime form");
        assert!(group.contains(&f));
    }
    assert!(group.is_id(&group.prime_form(23).expect("prime form")));
}

#[test]
fn only_the_principal_form_is_the_identity() {
    let group = S64Group::new(-47).expect("group");
    assert!(group.is_id(&S64Form { a: 1, b: 1, c: 12 }));
    for f in [
        S64Form { a: 2, b: 1, c: 6 },
        S64Form { a: 2, b: -1, c: 6 },
        S64Form { a: 3, b: 1, c: 4 },
        S64Form { a: 3, b: -1, c: 4 },
    ] {
        assert!(!group.is_id(&f));
    }
}

#[test]
fn next_prime_form_walks_the_prime_table() {
    let group = S64Group::new(-23).expect("group");
    assert_eq!(group.next_prime_form(0), Some((0, S64Form { a: 2, b: 1, c: 3 })));
    assert_eq!(group.next_prime_form(1), Some((1, S64Form { a: 2, b: -1, c: 3 })));
    // 5, 7 and 11 have no prime form; 13 is the sixth prime.
    assert_eq!(group.next_prime_form(2), Some((5, S64Form { a: 2, b: -1, c: 3 })));
    // The table holds the 6542 primes below 65536; its last ones have none.
    assert_eq!(group.next_prime_form(6540), None);
    assert_eq!(group.next_prime_form(6542), None);
}

#[test]
fn is_primeform_sets_the_form_or_leaves_it() {
    let group = MpzGroup::new_i64(-23).expect("group");
    let mut f = group.new_form().expect("form");
    assert!(group.is_primeform(&mut f, 2));
    let (a, b, c) = group.coefficients(&f).expect("texts");
    assert_eq!((a.as_str(), b.as_str(), c.as_str()), ("2", "1", "3"));
    assert!(!group.is_primeform(&mut f, 5));
    let (a, b, c) = group.coefficients(&f).expect("texts");
    assert_eq!((a.as_str(), b.as_str(), c.as_str()), ("2", "1", "3"));
}

#[test]
fn random_prime_form_gives_a_prime_form_of_the_group() {
    let group = S64Group::new(-23).expect("group");
    for _ in 0..20 {
        let f = group.random_prime_form().expect("prime form");
        assert!(group.contains(&f));
    }
}

#[test]
fn discriminants_that_are_two_or_three_mod_four_have_no_prime_forms() {
    let group = S64Group::new(-21).expect("group");
    assert_eq!(group.prime_form(2), None);
    assert_eq!(group.prime_form(3), None);
    assert_eq!(group.next_prime_form(0), None);
    assert_eq!(group.random_prime_form(), None);

    let mpz_group = MpzGroup::new_i64(-22).expect("group");
    assert!(mpz_group.next_prime_form(0).is_none());
    assert!(mpz_group.random_prime_form().is_none());
}

// ---------------------------------------------------------------------------
// Ambiguous forms and splitting.
// ---------------------------------------------------------------------------

#[test]
fn ambiguous_forms_of_discriminant_minus_84() {
    let group = S64Group::new(-84).expect("group");
    assert!(!group.is_ambiguous(&group.identity()));
    assert!(group.is_ambiguous(&S64Form { a: 3, b: 0, c: 7 }));
    assert!(group.is_ambiguous(&S64Form { a: 5, b: 4, c: 5 }));
    assert!(group.is_ambiguous(&S64Form { a: 2, b: 2, c: 11 }));

    let g23 = S64Group::new(-23).expect("group");
    assert!(!g23.is_ambiguous(&S64Form { a: 2, b: 1, c: 3 }));
}

#[test]
fn split_ambiguous_gives_a_proper_factor() {
    let group = S64Group::new(-84).expect("group");
    assert_eq!(group.split_ambiguous_str(&S64Form { a: 3, b: 0, c: 7 }, "21"), Some("3".to_string()));
    assert_eq!(group.split_ambiguous_str(&S64Form { a: 5, b: 4, c: 5 }, "21"), Some("3".to_string()));
    assert_eq!(group.split_ambiguous_str(&S64Form { a: 2, b: 2, c: 11 }, "21"), None);
    assert_eq!(group.split_ambiguous_str(&group.identity(), "21"), None);
    assert_eq!(group.split_ambiguous_str(&S64Form { a: 3, b: 0, c: 7 }, "x"), None);
    assert_eq!(group.split_ambiguous_str(&S64Form { a: 3, b: 0, c: 7 }, "3"), None);

    let g = group.split_ambiguous_mpz(&S64Form { a: 3, b: 0, c: 7 }, &Mpz::from_i64(-21));
    assert_eq!(g.map(|x| dec(&x)), Some("3".to_string()));

    let mpz_group = MpzGroup::new_i64(-84).expect("group");
    let mut f = mpz_group.new_form().expect("form");
    assert!(mpz_group.set_coefficients_str(&mut f, "5", "4", "5"));
    assert_eq!(mpz_group.split_ambiguous_str(&f, "21"), Some("3".to_string()));
}

// ---------------------------------------------------------------------------
// Hashes.
// ---------------------------------------------------------------------------

#[test]
fn hash32_of_known_forms() {
    let group = S64Group::new(-23).expect("group");
    assert_eq!(group.hash32(&S64Form { a: 2, b: 1, c: 3 }), 1013904227);
    assert_eq!(group.hash32(&S64Form { a: 2, b: -1, c: 3 }), 1013904225);
    assert_eq!(group.hash32(&group.identity()), 2654435762);

    let mpz_group = MpzGroup::new_i64(-23).expect("group");
    let f = mpz_group.prime_form(2).expect("prime form");
    assert_eq!(mpz_group.hash32(&f), 1013904227);

    let gen_group = GenGroup::new_i64(-23).expect("group");
    let g = gen_group.prime_form(2).expect("prime form");
    assert_eq!(gen_group.hash32(&g), 1013904227);
}

// ---------------------------------------------------------------------------
// Discriminants.
// ---------------------------------------------------------------------------

#[test]
fn any_integer_is_accepted_as_discriminant() {
    let g0 = S64Group::new(0).expect("group");
    assert_eq!(g0.identity(), S64Form { a: 1, b: 0, c: 0 });
    let g5 = S64Group::new(5).expect("group");
    assert_eq!(g5.identity(), S64Form { a: 1, b: 1, c: -1 });
    let g8 = S128Group::new(8).expect("group");
    assert_eq!(g8.identity(), S128Form { a: 1, b: 0, c: -2 });
    assert!(MpzGroup::new_i64(1).is_some());
    let m = MpzGroup::new_str("12").expect("group");
    assert_eq!(dec(&m.discriminant_value()), "12");
    assert!(SanityGroup::new_i64(4).is_some());
    assert!(MpzGroup::new_str(" -23").is_some());
    // Only a text that is no integer is refused.
    assert!(MpzGroup::new_str("abc").is_none());
    assert!(GenGroup::new_str("").is_none());
    assert!(SanityGroup::new_str("1\u{0}").is_none());
}

#[test]
fn setting_the_discriminant() {
    let mut group = S64Group::new(-23).expect("group");
    group.set_discriminant(7);
    assert_eq!(group.identity(), S64Form { a: 1, b: 1, c: -2 });
    group.set_discriminant(-47);
    assert_eq!(group.identity(), S64Form { a: 1, b: 1, c: 12 });

    assert!(!group.set_discriminant_str("x"));
    assert_eq!(group.identity(), S64Form { a: 1, b: 1, c: 12 });
    assert!(group.set_discriminant_str("-23"));
    assert_eq!(group.identity(), S64Form { a: 1, b: 1, c: 6 });
    assert!(group.set_discriminant_mpz(&Mpz::from_i64(3)));
    assert_eq!(group.identity(), S64Form { a: 1, b: 1, c: -1 });
    assert!(group.set_discriminant_mpz(&Mpz::from_i64(-4)));
    assert_eq!(group.identity(), S64Form { a: 1, b: 0, c: 1 });

    let mut mpz_group = MpzGroup::new_i64(-23).expect("group");
    assert!(!mpz_group.set_discriminant_str("x"));
    assert_eq!(dec(&mpz_group.discriminant_value()), "-23");
    assert!(mpz_group.set_discriminant_str("-84"));
    assert_eq!(dec(&mpz_group.discriminant_value()), "-84");
    mpz_group.set_discriminant_i64(1);
    assert_eq!(dec(&mpz_group.discriminant_value()), "1");
    assert!(mpz_group.set_discriminant_mpz(&Mpz::from_i64(5)));
    assert_eq!(dec(&mpz_group.discriminant_value()), "5");

    let mut gen_group = GenGroup::new_i64(-23).expect("group");
    assert!(gen_group.set_discriminant_str("5"));
    assert_eq!(gen_group.backend(), GenBackend::S64);
    let id = gen_group.identity().expect("id");
    assert_eq!(gen_group.get_s64(&id), Some(S64Form { a: 1, b: 1, c: -1 }));

    let mut sanity = SanityGroup::new_i64(-23).expect("group");
    assert!(sanity.set_discriminant_str("5"));
    assert!(!sanity.set_discriminant_str("five"));
    let id = sanity.identity().expect("id");
    assert_eq!(
        sanity.coefficients(&id),
        Some(("1".to_string(), "1".to_string(), "-1".to_string()))
    );
}

#[test]
fn prime_forms_of_a_positive_discriminant() {
    // 17 is 1 modulo 8, so 2 has the prime form (2, 1, -2).
    let group = S64Group::new(17).expect("group");
    let f = group.prime_form(2).expect("prime form");
    assert!(group.contains(&f));
    let mpz_group = MpzGroup::new_i64(17).expect("group");
    let g = mpz_group.prime_form(2).expect("prime form");
    assert_eq!(
        mpz_group.coefficients(&g),
        Some((f.a.to_string(), f.b.to_string(), f.c.to_string()))
    );
    let p = mpz_group.pow_u32(&g, 5).expect("pow");
    assert!(mpz_group.coefficients(&p).is_some());
}

#[test]
fn random_prime_forms_come_from_all_over_the_table() {
    // With D = -23 the primes 2 and 3 give (2, 1, 3) and (2, -1, 3), and a
    // random start index makes both come out.
    let group = S64Group::new(-23).expect("group");
    let mut seen_plus = false;
    let mut seen_minus = false;
    for _ in 0..200 {
        let f = group.random_prime_form().expect("prime form");
        if f == (S64Form { a: 2, b: 1, c: 3 }) {
            seen_plus = true;
        }
        if f == (S64Form { a: 2, b: -1, c: 3 }) {
            seen_minus = true;
        }
    }
    assert!(seen_plus && seen_minus);
}

#[test]
fn generic_backend_thresholds() {
    let below = -(1_i64 << 59) + 1;
    assert_eq!(GenGroup::new_i64(below).expect("g").backend(), GenBackend::S64);
    assert_eq!(GenGroup::new_i64(-(1_i64 << 59)).expect("g").backend(), GenBackend::S128);
    let below128 = -(1_i128 << 118) + 1;
    assert_eq!(GenGroup::new_i128(below128).expect("g").backend(), GenBackend::S128);
    assert_eq!(GenGroup::new_i128(-(1_i128 << 118)).expect("g").backend(), GenBackend::Mpz);

    let mut g = GenGroup::new_i64(-23).expect("g");
    g.set_discriminant_i128(-(1_i128 << 100) - 7);
    assert_eq!(g.backend(), GenBackend::S128);
    g.set_discriminant_i64(9);
    assert_eq!(g.backend(), GenBackend::S64);
    assert!(g.set_discriminant_str("-170141183460469231731687303715884105731"));
    assert_eq!(g.backend(), GenBackend::Mpz);
}

// ---------------------------------------------------------------------------
// Large discriminants, checked against the arithmetic of any size.
// ---------------------------------------------------------------------------

#[test]
fn s128_arithmetic_of_a_large_discriminant() {
    let d: i128 = -(1_i128 << 100) - 7;
    let group = S128Group::new(d).expect("group");
    let (i, f) = group.next_prime_form(0).expect("prime form");
    assert_eq!(i, 0);
    assert_eq!(f, S128Form { a: 2, b: 1, c: 158456325028528675187087900673 });
    assert_eq!(group.square(&f), S128Form { a: 4, b: -3, c: 79228162514264337593543950337 });
    assert_eq!(group.cube(&f), S128Form { a: 8, b: 5, c: 39614081257132168796771975169 });
    assert_eq!(
        group.pow_u32(&f, 1000),
        S128Form { a: 110610283842511, b: 64399537515975, c: 2874501937069682 }
    );

    let mpz_group = MpzGroup::new_i128(d).expect("group");
    let g = mpz_group.prime_form(2).expect("prime form");
    let p = mpz_group.pow_u32(&g, 1000).expect("pow");
    let (a, b, c) = mpz_group.coefficients(&p).expect("texts");
    assert_eq!(
        (a.as_str(), b.as_str(), c.as_str()),
        ("110610283842511", "64399537515975", "2874501937069682")
    );
}

#[test]
fn mpz_arithmetic_of_a_discriminant_beyond_128_bits() {
    let d = mpz("-1393796574908163946345982392040522594123791");
    let group = MpzGroup::new_mpz(&d).expect("group");
    let f = group.prime_form(2).expect("prime form");
    let (a, b, c) = group.coefficients(&f).expect("texts");
    assert_eq!(
        (a.as_str(), b.as_str(), c.as_str()),
        ("2", "1", "174224571863520493293247799005065324265474")
    );
    let mut sq = group.new_form().expect("form");
    group.square(&mut sq, &f);
    let (a, b, c) = group.coefficients(&sq).expect("texts");
    assert_eq!(
        (a.as_str(), b.as_str(), c.as_str()),
        ("4", "1", "87112285931760246646623899502532662132737")
    );
    let p = group.pow_u32(&f, 77).expect("pow");
    let (a, b, c) = group.coefficients_mpz(&p).expect("values");
    assert_eq!(dec(&a), "312608600023927027640");
    assert_eq!(dec(&b), "59286170893782634183");
    assert_eq!(dec(&c), "1117460799911183412538");
}

#[test]
fn sanity_group_agrees_across_backends() {
    for d in ["-23", "-47", "-84", "-1267650600228229401496703205383", "-1393796574908163946345982392040522594123791"] {
        let group = SanityGroup::new_str(d).expect("group");
        let plain = MpzGroup::new_str(d).expect("group");
        let (_, f) = group.next_prime_form(0).expect("prime form");
        let (_, g) = plain.next_prime_form(0).expect("prime form");
        let (_, f2) = group.next_prime_form(1).expect("prime form");
        let (_, g2) = plain.next_prime_form(1).expect("prime form");

        let mut out = group.new_form().expect("form");
        let mut want = plain.new_form().expect("form");
        group.compose(&mut out, &f, &f2);
        plain.compose(&mut want, &g, &g2);
        assert_eq!(group.hash32(&out), plain.hash32(&want));

        group.cube(&mut out, &f);
        plain.cube(&mut want, &g);
        assert_eq!(group.hash32(&out), plain.hash32(&want));

        let p = group.pow_u32(&f, 12345).expect("pow");
        let q = plain.pow_u32(&g, 12345).expect("pow");
        assert_eq!(group.hash32(&p), plain.hash32(&q));
        assert_eq!(group.is_id(&p), plain.is_id(&q));
    }
}

#[test]
fn generic_forms_hold_their_coefficients_in_the_group_arithmetic() {
    let g64 = GenGroup::new_i64(-23).expect("group");
    let f = g64.prime_form(2).expect("prime form");
    assert_eq!(g64.coefficients(&f), Some(GenCoefficients::S64(S64Form { a: 2, b: 1, c: 3 })));
    assert_eq!(g64.get_s64(&f), Some(S64Form { a: 2, b: 1, c: 3 }));
    assert_eq!(g64.get_s128(&f), None);
    assert!(g64.get_mpz(&f).is_none());
    assert!(g64.mpz_coefficients(&f).is_none());

    let g128 = GenGroup::new_i128(-(1_i128 << 100) - 7).expect("group");
    let mut h = g128.new_form().expect("form");
    assert!(!g128.set_from_s64(&mut h, S64Form { a: 1, b: 1, c: 1 }));
    assert!(g128.set_from_s128(&mut h, S128Form { a: 2, b: 1, c: 158456325028528675187087900673 }));
    assert_eq!(
        g128.coefficients(&h),
        Some(GenCoefficients::S128(S128Form { a: 2, b: 1, c: 158456325028528675187087900673 }))
    );

    let gm = GenGroup::new_str("-1393796574908163946345982392040522594123791").expect("group");
    let mut m = gm.new_form().expect("form");
    assert!(!gm.set_from_mpz_strings(&mut m, "7", "oops", "1"));
    assert!(gm.set_from_mpz_strings(&mut m, "2", "1", "174224571863520493293247799005065324265474"));
    assert_eq!(
        gm.coefficients(&m),
        Some(GenCoefficients::Mpz {
            a: "2".to_string(),
            b: "1".to_string(),
            c: "174224571863520493293247799005065324265474".to_string(),
        })
    );
}

#[test]
fn s64_form_helpers() {
    let group = S64Group::new(-23).expect("group");
    let f = group.set3(2, 1, 3);
    assert_eq!(f, S64Form { a: 2, b: 1, c: 3 });
    let mut g = S64Form { a: 0, b: 0, c: 0 };
    group.set(&mut g, &f);
    assert!(group.equal(&g, &f));
    group.init_form(&mut g);
    group.clear_form(&mut g);
    assert_eq!(g, f);
}

// ---------------------------------------------------------------------------
// Integers of any size and their texts.
// ---------------------------------------------------------------------------

#[test]
fn integers_read_back_from_their_text() {
    let values = [
        "0",
        "1",
        "-1",
        "4294967295",
        "4294967296",
        "-18446744073709551616",
        "123456789012345678901234567890123456789",
        "-170141183460469231731687303715884105731",
    ];
    for v in values {
        let x = mpz(v);
        assert_eq!(dec(&x), v);
        for radix in [2_u32, 7, 16, 36] {
            let t = x.to_string_radix(radix);
            let y = Mpz::from_str_radix(&t, radix).expect("reads back");
            assert_eq!(dec(&y), v);
        }
    }
    assert_eq!(Mpz::from_i64(255).to_string_radix(16), "ff");
    assert_eq!(Mpz::from_i64(-255).to_string_radix(2), "-11111111");
    assert_eq!(Mpz::from_i64(35).to_string_radix(36), "z");
}

#[test]
fn reading_integers_follows_the_text_rules() {
    assert_eq!(dec(&Mpz::from_str_radix("  -ff", 16).unwrap()), "-255");
    assert_eq!(dec(&Mpz::from_str_radix("FF", 16).unwrap()), "255");
    assert_eq!(dec(&Mpz::from_str_radix("1 2 3", 10).unwrap()), "123");
    assert_eq!(Mpz::from_str_radix("12", 1).unwrap_err(), ParseMpzError::InvalidRadix);
    assert_eq!(Mpz::from_str_radix("12", 37).unwrap_err(), ParseMpzError::InvalidRadix);
    assert_eq!(Mpz::from_str_radix("1\02", 10).unwrap_err(), ParseMpzError::InteriorNul);
    assert_eq!(Mpz::from_str_radix("", 10).unwrap_err(), ParseMpzError::InvalidInput);
    assert_eq!(Mpz::from_str_radix("-", 10).unwrap_err(), ParseMpzError::InvalidInput);
    assert_eq!(Mpz::from_str_radix("12x", 10).unwrap_err(), ParseMpzError::InvalidInput);
    assert_eq!(Mpz::from_str_radix("19", 8).unwrap_err(), ParseMpzError::InvalidInput);
    assert_eq!(Mpz::from_str_radix(" 1", 10).map(|x| dec(&x)), Ok("1".to_string()));

    let mut x = Mpz::from_i64(42);
    assert_eq!(x.set_str_radix("zz", 10), Err(ParseMpzError::InvalidInput));
    assert_eq!(dec(&x), "42");
    assert_eq!(x.set_str_radix("zz", 36), Ok(()));
    assert_eq!(dec(&x), "1295");
}

#[test]
fn integer_arithmetic_of_large_values() {
    let a = mpz("340282366920938463463374607431768211457");
    let b = mpz("-18446744073709551617");
    assert_eq!(dec(&a.add(&b)), "340282366920938463444927863358058659840");
    assert_eq!(dec(&a.sub(&b)), "340282366920938463481821351505477763074");
    assert_eq!(dec(&a.mul(&b)), "-6277101735386680764176071790128604879584176795969512275969");
    let (q, r) = b.fdiv_qr(&Mpz::from_i64(1000));
    assert_eq!(dec(&q), "-18446744073709552");
    assert_eq!(dec(&r), "383");
    let (q, r) = a.fdiv_qr(&mpz("18446744073709551616"));
    assert_eq!(dec(&q), "18446744073709551616");
    assert_eq!(dec(&r), "1");
    assert!(b.lt(&a));
    assert!(!a.lt(&b));
    assert!(a.eq(&a.copy()));
    assert!(!a.eq(&b));
    assert!(b.is_negative());
    assert_eq!(dec(&b.abs()), "18446744073709551617");
    assert_eq!(dec(&b.neg()), "18446744073709551617");
    assert!(Mpz::new().is_zero());
    assert_eq!(dec(&Mpz::from_u64(u64::MAX).mul_i64(2).add_i64(3)), "36893488147419103233");
    assert_eq!(Mpz::from_i128(i128::MIN).to_i128(), i128::MIN);
    assert_eq!(Mpz::from_u128(u128::MAX).to_string_radix(16), "ffffffffffffffffffffffffffffffff");
    assert_eq!(Mpz::from_i64(-7).to_i64(), -7);
    assert_eq!(Mpz::from_i64(-7).to_i32(), -7);

    let mut y = Mpz::default();
    assert_eq!(dec(&y), "0");
    y.set_i64(-5);
    assert_eq!(dec(&y), "-5");
    y.set_u64(u64::MAX);
    assert_eq!(dec(&y), "18446744073709551615");
}

#[test]
fn canonical_coefficient_texts_come_back_unchanged() {
    let group = MpzGroup::new_i64(-23).expect("group");
    let mut f = group.new_form().expect("form");
    let (a, b, c) = ("-120", "0", "98765432109876543210987654321");
    assert!(group.set_coefficients_str(&mut f, a, b, c));
    assert_eq!(
        group.coefficients(&f),
        Some((a.to_string(), b.to_string(), c.to_string()))
    );
    for t in ["0", "-7", "340282366920938463463374607431768211457"] {
        assert_eq!(mpz(t).to_string_radix(10), t);
    }
    assert_eq!(Mpz::from_str_radix("-zz", 36).unwrap().to_string_radix(36), "-zz");
}

#[test]
fn powers_are_built_by_squaring() {
    let group = S64Group::new(-47).expect("group");
    let f = group.prime_form(2).expect("prime form");
    for e in [1_u32, 2, 3, 7] {
        let half = group.pow_u32(&f, e);
        assert_eq!(group.pow_u32(&f, 2 * e), group.square(&half));
        assert_eq!(group.pow_u32(&f, 2 * e + 1), group.compose(&group.square(&half), &f));
    }
}

fn gcd(a: i64, b: i64) -> i64 {
    if b == 0 { a.abs() } else { gcd(b, a % b) }
}

fn reduced_forms(group: &S64Group, d: i64) -> Vec<S64Form> {
    let mut out = Vec::new();
    let mut a: i64 = 1;
    while 3 * a * a <= -d {
        for b in (-a + 1)..=a {
            if (b * b - d) % (4 * a) == 0 {
                let c = (b * b - d) / (4 * a);
                let mut f = S64Form { a: a as i32, b: b as i32, c };
                let g = f;
                group.reduce(&mut f);
                if f == g {
                    out.push(f);
                }
            }
        }
        a += 1;
    }
    out
}

#[test]
fn composition_is_associative_on_primitive_forms_of_small_discriminants() {
    for d in (-160_i64..=-3).filter(|d| d.rem_euclid(4) <= 1) {
        let group = S64Group::new(d).expect("group");
        let forms: Vec<S64Form> = reduced_forms(&group, d)
            .into_iter()
            .filter(|f| gcd(gcd(f.a as i64, f.b as i64), f.c) == 1)
            .collect();
        for f in &forms {
            for g in &forms {
                for h in &forms {
                    let left = group.compose(&group.compose(f, g), h);
                    let right = group.compose(f, &group.compose(g, h));
                    assert_eq!(left, right, "d = {d}");
                }
            }
            for e in 0..12_u32 {
                assert_eq!(
                    group.pow_u32(f, e + 1),
                    group.compose(&group.pow_u32(f, e), f),
                    "d = {d}"
                );
            }
        }
    }
}

#[test]
fn composition_of_forms_that_are_not_primitive_is_not_associative() {
    // Forms whose coefficients share a factor do not form a group under
    // composition: the laws of powers and of association fail for them.
    let group = S64Group::new(-128).expect("group");
    let f = S64Form { a: 6, b: 4, c: 6 };
    assert_eq!(group.pow_u32(&f, 4), S64Form { a: 1, b: 0, c: 32 });
    assert_eq!(group.compose(&group.pow_u32(&f, 3), &f), S64Form { a: 4, b: 4, c: 9 });

    let group = S64Group::new(-32).expect("group");
    let f = S64Form { a: 2, b: 0, c: 4 };
    let h = S64Form { a: 3, b: 2, c: 3 };
    assert_eq!(group.compose(&group.compose(&f, &f), &h), S64Form { a: 3, b: 2, c: 3 });
    assert_eq!(group.compose(&f, &group.compose(&f, &h)), S64Form { a: 1, b: 0, c: 8 });
}
