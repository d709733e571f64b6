use qform::{
    GenBackend, GenGroup, Mpz, MpzGroup, S128Form, S128Group, S64Form, S64Group, SanityGroup,
};

#[test]
fn s64_identity_is_identity() {
    let group = S64Group::new(-23).expect("alloc group");
    let id = group.identity();
    assert!(group.is_id(&id));
}

#[test]
fn s64_compose_with_identity_is_neutral() {
    let group = S64Group::new(-23).expect("alloc group");
    let id = group.identity();
    let f = S64Form { a: 2, b: 1, c: 3 };

    let left = group.compose(&id, &f);
    let right = group.compose(&f, &id);

    assert!(group.equal(&left, &f));
    assert!(group.equal(&right, &f));
}

#[test]
fn s64_inverse_composes_to_identity() {
    let group = S64Group::new(-23).expect("alloc group");
    let f = S64Form { a: 2, b: 1, c: 3 };
    let mut inv = f;
    group.inverse(&mut inv);
    let prod = group.compose(&f, &inv);

    assert!(group.is_id(&prod));
}

#[test]
fn s128_compose_with_identity_is_neutral() {
    let group = S128Group::new(-23).expect("alloc group");
    let id = group.identity();
    let f = S128Form { a: 2, b: 1, c: 3 };

    let left = group.compose(&id, &f);
    let right = group.compose(&f, &id);

    assert!(group.equal(&left, &f));
    assert!(group.equal(&right, &f));
}

#[test]
fn s64_pow_u32_matches_cube_for_exp_three() {
    let group = S64Group::new(-23).expect("alloc group");
    let f = group.prime_form(2).expect("prime form");
    let pow = group.pow_u32(&f, 3);
    let cube = group.cube(&f);
    assert!(group.equal(&pow, &cube));
}

#[test]
fn s128_pow_u32_matches_cube_for_exp_three() {
    let group = S128Group::new(-23).expect("alloc group");
    let f = group.prime_form(2).expect("prime form");
    let pow = group.pow_u32(&f, 3);
    let cube = group.cube(&f);
    assert!(group.equal(&pow, &cube));
}

#[test]
fn next_prime_form_rejects_out_of_range_indices() {
    let s64 = S64Group::new(-23).expect("s64");
    assert!(s64.next_prime_form(-1).is_none());
    assert!(s64.next_prime_form(i32::MAX).is_none());

    let s128 = S128Group::new(-23).expect("s128");
    assert!(s128.next_prime_form(-1).is_none());
    assert!(s128.next_prime_form(i32::MAX).is_none());

    let mpz = MpzGroup::new_i64(-23).expect("mpz");
    assert!(mpz.next_prime_form(-1).is_none());
    assert!(mpz.next_prime_form(i32::MAX).is_none());

    let gen_group = GenGroup::new_i64(-23).expect("gen");
    assert!(gen_group.next_prime_form(-1).is_none());
    assert!(gen_group.next_prime_form(i32::MAX).is_none());

    let sanity = SanityGroup::new_i64(-23).expect("sanity");
    assert!(sanity.next_prime_form(-1).is_none());
    assert!(sanity.next_prime_form(i32::MAX).is_none());
}

#[test]
fn s64_next_prime_form_indices_increase() {
    let group = S64Group::new(-23).expect("s64");
    let (i0, _) = group.next_prime_form(0).expect("first");
    let (i1, _) = group.next_prime_form(i0 + 1).expect("second");
    assert!(i1 > i0);
}

#[test]
fn mpz_pow_u32_matches_cube_for_exp_three() {
    let group = MpzGroup::new_i64(-23).expect("mpz");
    let f = group.random_prime_form().expect("prime form");
    let pow = group.pow_u32(&f, 3).expect("pow");

    let mut cube = group.new_form().expect("cube");
    group.cube(&mut cube, &f);
    assert!(group.equal(&pow, &cube));
}

#[test]
fn generic_pow_u32_matches_cube_for_exp_three() {
    let group = GenGroup::new_i64(-23).expect("gen");
    let f = group.random_prime_form().expect("prime form");
    let pow = group.pow_u32(&f, 3).expect("pow");

    let mut cube = group.new_form().expect("cube");
    group.cube(&mut cube, &f);
    assert!(group.equal(&pow, &cube));
}

#[test]
fn sanity_pow_u32_matches_cube_for_exp_three() {
    let group = SanityGroup::new_i64(-23).expect("sanity");
    let f = group.random_prime_form().expect("prime form");
    let pow = group.pow_u32(&f, 3).expect("pow");

    let mut cube = group.new_form().expect("cube");
    group.cube(&mut cube, &f);
    assert!(group.equal(&pow, &cube));
}

#[test]
fn mpz_group_identity_is_identity() {
    let group = MpzGroup::new_i64(-23).expect("alloc group");
    let id = group.identity().expect("id");
    assert!(group.is_id(&id));
}

#[test]
fn sanity_group_identity_is_identity() {
    let group = SanityGroup::new_i64(-23).expect("alloc group");
    let id = group.identity().expect("id");
    assert!(group.is_id(&id));
}

#[test]
fn clear_form_keeps_forms_usable() {
    let mpz = MpzGroup::new_i64(-23).expect("mpz");
    let mut mpz_form = mpz.identity().expect("id");
    mpz.clear_form(&mut mpz_form);
    mpz.set_id(&mut mpz_form);
    assert!(mpz.is_id(&mpz_form));

    let gen_group = GenGroup::new_i64(-23).expect("gen");
    let mut gen_form = gen_group.identity().expect("id");
    gen_group.clear_form(&mut gen_form);
    gen_group.set_id(&mut gen_form);
    assert!(gen_group.is_id(&gen_form));

    let sanity = SanityGroup::new_i64(-23).expect("sanity");
    let mut sanity_form = sanity.identity().expect("id");
    sanity.clear_form(&mut sanity_form);
    sanity.set_id(&mut sanity_form);
    assert!(sanity.is_id(&sanity_form));
}

#[test]
fn generic_selects_backend_from_discriminant_size() {
    let g64 = GenGroup::new_i64(-23).expect("g64");
    assert_eq!(g64.backend(), GenBackend::S64);

    let g128 = GenGroup::new_i128(-(1_i128 << 80) + 1).expect("g128");
    assert_eq!(g128.backend(), GenBackend::S128);

    let gmp = GenGroup::new_str("-123456789012345678901234567890123456789").expect("gmp");
    assert_eq!(gmp.backend(), GenBackend::Mpz);
}

#[test]
fn generic_s64_identity_and_compose() {
    let group = GenGroup::new_i64(-23).expect("group");

    let mut id = group.identity().expect("id");
    assert!(group.is_id(&id));

    let mut f = group.new_form().expect("form");
    assert!(group.set_from_s64(&mut f, S64Form { a: 2, b: 1, c: 3 }));

    let mut out = group.new_form().expect("out");
    group.compose(&mut out, &id, &f);
    assert!(group.equal(&out, &f));

    group.inverse(&mut f);
    group.compose(&mut out, &f, &id);
    assert!(group.equal(&out, &f));

    group.set_id(&mut id);
    assert!(group.is_id(&id));
}

#[test]
fn generic_mpz_identity_has_string_coefficients() {
    let group = GenGroup::new_str("-123456789012345678901234567890123456789").expect("group");
    let id = group.identity().expect("id");
    assert!(group.is_id(&id));

    let (a, b, c) = group.mpz_coefficients(&id).expect("mpz coefficients");
    assert_eq!(a, "1");
    assert!(!b.is_empty());
    assert!(!c.is_empty());
}

#[test]
fn generic_mpz_roundtrip_with_gmp_feature() {
    let d = Mpz::from_str_radix("-123456789012345678901234567890123456789", 10).expect("disc");
    let group = GenGroup::new_mpz(&d).expect("group");
    let mut form = group.identity().expect("id");

    let a = Mpz::from_i64(1);
    let b = Mpz::from_i64(1);
    let c = Mpz::from_str_radix("30864197253086419725308641972530864197", 10).expect("c");
    assert!(group.set_from_mpz(&mut form, &a, &b, &c));

    let (out_a, out_b, out_c) = group.get_mpz(&form).expect("get mpz");
    assert_eq!(out_a.to_string_radix(10), "1");
    assert_eq!(out_b.to_string_radix(10), "1");
    assert_eq!(
        out_c.to_string_radix(10),
        "30864197253086419725308641972530864197"
    );
}

#[test]
fn generic_group_can_select_mpz_backend() {
    // 128-bit negative discriminant represented as decimal text.
    let group = GenGroup::new_str("-170141183460469231731687303715884105731").expect("group");
    assert_eq!(group.backend(), GenBackend::Mpz, "expected mpz backend");

    let mut f = group.new_form().expect("form");
    group.set_id(&mut f);
    assert!(group.is_id(&f));
    assert!(!group.is_ambiguous(&f));

    group.inverse(&mut f);
    group.reduce(&mut f);
    assert!(group.is_id(&f));
}
