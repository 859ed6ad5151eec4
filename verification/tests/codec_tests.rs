use encoding::codec::{encode, encode_into, likelihood_slots, zero_buffer};
use encoding::schema::{encoding_size, try_encoding_size, variant_offset_to, Ty};
use encoding::value::{conforms_check, Val};

/// The likelihood of `v` under `source`: the product of the buffer
/// entries at the consulted slots.
fn likelihood(t: &Ty, v: &Val, source: &[f64]) -> f64 {
    let mut p: f64 = 1.0;
    for i in likelihood_slots(t, v) {
        p *= source[i];
    }
    p
}

#[test]
fn it_works() {
    assert_eq!(2 + 2, 4);
}

#[test]
fn boolean_scenario() {
    let t = Ty::Bool;
    assert_eq!(encoding_size(&t), 2);
    assert_eq!(encode(&t, &Val::Bool(true)), vec![1u8, 0]);
    assert_eq!(encode(&t, &Val::Bool(false)), vec![0u8, 1]);
    assert_eq!(likelihood(&t, &Val::Bool(true), &[0.3, 0.7]), 0.3);
    assert_eq!(likelihood(&t, &Val::Bool(false), &[0.3, 0.7]), 0.7);
}

#[test]
fn optional_scenario() {
    let t = Ty::Optional(Box::new(Ty::Bool));
    assert_eq!(encoding_size(&t), 4);
    assert_eq!(encode(&t, &Val::Absent), vec![1u8, 0, 0, 0]);
    let present_true = Val::Present(Box::new(Val::Bool(true)));
    assert_eq!(encode(&t, &present_true), vec![0u8, 1, 1, 0]);
    let l = likelihood(&t, &present_true, &[0.2, 0.8, 0.9, 0.1]);
    assert!((l - 0.72).abs() < 1e-12);
    assert_eq!(likelihood(&t, &Val::Absent, &[0.2, 0.8, 0.9, 0.1]), 0.2);
}

fn three_variant_union() -> Ty {
    // variant A: no fields; B: two booleans; C: one boolean
    Ty::Union(vec![vec![], vec![Ty::Bool, Ty::Bool], vec![Ty::Bool]])
}

#[test]
fn union_scenario() {
    let t = three_variant_union();
    assert_eq!(encoding_size(&t), 9);
    let b = Val::Case(1, vec![Val::Bool(true), Val::Bool(false)]);
    assert_eq!(encode(&t, &b), vec![0u8, 1, 1, 0, 0, 1, 0, 0, 0]);
    let a = Val::Case(0, vec![]);
    assert_eq!(encode(&t, &a), vec![1u8, 0, 0, 0, 0, 0, 0, 0, 0]);
    let c = Val::Case(2, vec![Val::Bool(false)]);
    assert_eq!(encode(&t, &c), vec![0u8, 0, 0, 0, 0, 0, 1, 0, 1]);
}

#[test]
fn union_variant_offsets() {
    let t = three_variant_union();
    match &t {
        Ty::Union(variants) => {
            assert_eq!(variant_offset_to(variants, 0), 0);
            assert_eq!(variant_offset_to(variants, 1), 1);
            assert_eq!(variant_offset_to(variants, 2), 6);
            assert_eq!(variant_offset_to(variants, 3), 9);
        }
        _ => unreachable!(),
    }
}

#[test]
fn union_likelihood_reads_only_active_region() {
    let t = three_variant_union();
    let b = Val::Case(1, vec![Val::Bool(true), Val::Bool(false)]);
    let source = [0.9, 0.5, 0.6, 0.4, 0.3, 0.7, 0.8, 0.2, 0.1];
    // tag at offset 1, true over offsets 2-3, false over offsets 4-5
    let l = likelihood(&t, &b, &source);
    assert_eq!(l, 0.5 * 0.6 * 0.7);
    // slots of the other variants do not enter the product
    let mut changed = source;
    changed[0] = 0.0;
    changed[6] = 0.0;
    changed[8] = 0.0;
    assert_eq!(likelihood(&t, &b, &changed), l);
}

#[test]
fn unit_neutral_element() {
    let t = Ty::Unit;
    assert_eq!(encoding_size(&t), 0);
    assert_eq!(encode(&t, &Val::Unit), Vec::<u8>::new());
    assert_eq!(likelihood(&t, &Val::Unit, &[]), 1.0);
}

#[test]
fn wrapper_passes_through() {
    let t = Ty::Wrap(Box::new(Ty::Bool));
    assert_eq!(encoding_size(&t), 2);
    assert_eq!(encode(&t, &Val::Bool(false)), vec![0u8, 1]);
    assert_eq!(likelihood(&t, &Val::Bool(false), &[0.3, 0.7]), 0.7);
}

#[test]
fn struct_size_additivity() {
    let t = Ty::Struct(vec![Ty::Bool, Ty::Unit, Ty::Optional(Box::new(Ty::Bool))]);
    assert_eq!(encoding_size(&t), 2 + 0 + 4);
    let u = three_variant_union();
    assert_eq!(encoding_size(&u), (1 + 0) + (1 + 4) + (1 + 2));
}

#[test]
fn struct_layout_in_declaration_order() {
    let t = Ty::Struct(vec![Ty::Bool, Ty::Unit, Ty::Optional(Box::new(Ty::Bool))]);
    let v = Val::Fields(vec![
        Val::Bool(false),
        Val::Unit,
        Val::Present(Box::new(Val::Bool(true))),
    ]);
    assert_eq!(encode(&t, &v), vec![0u8, 1, 0, 1, 1, 0]);
}

#[test]
fn tuple_as_positional_struct() {
    // a pair of booleans laid out left to right
    let t = Ty::Struct(vec![Ty::Bool, Ty::Bool]);
    let v = Val::Fields(vec![Val::Bool(true), Val::Bool(false)]);
    assert_eq!(encoding_size(&t), 4);
    assert_eq!(encode(&t, &v), vec![1u8, 0, 0, 1]);
    let l = likelihood(&t, &v, &[0.6, 0.4, 0.1, 0.9]);
    assert_eq!(l, 0.6 * 0.9);
}

#[test]
fn array_per_element_factors() {
    let t = Ty::Array(Box::new(Ty::Bool), 3);
    let v = Val::Fields(vec![Val::Bool(true), Val::Bool(false), Val::Bool(true)]);
    assert_eq!(encoding_size(&t), 6);
    assert_eq!(encode(&t, &v), vec![1u8, 0, 0, 1, 1, 0]);
    let source = [0.9, 0.1, 0.2, 0.8, 0.7, 0.3];
    let l = likelihood(&t, &v, &source);
    assert_eq!(l, 0.9 * 0.8 * 0.7);
    // corrupting one element's sub-range leaves the other factors alone
    let mut corrupted = source;
    corrupted[3] = 0.5;
    assert_eq!(likelihood(&t, &v, &corrupted), 0.9 * 0.5 * 0.7);
}

#[test]
fn empty_array_has_no_slots() {
    let t = Ty::Array(Box::new(Ty::Bool), 0);
    let v = Val::Fields(vec![]);
    assert_eq!(encoding_size(&t), 0);
    assert_eq!(encode(&t, &v), Vec::<u8>::new());
    assert_eq!(likelihood(&t, &v, &[]), 1.0);
}

#[test]
fn round_trip_likelihood_is_one() {
    let t = three_variant_union();
    let v = Val::Case(1, vec![Val::Bool(true), Val::Bool(false)]);
    let enc = encode(&t, &v);
    let as_params: Vec<f64> = enc.iter().map(|&b| b as f64).collect();
    assert_eq!(likelihood(&t, &v, &as_params), 1.0);

    let opt = Ty::Optional(Box::new(Ty::Bool));
    let pv = Val::Present(Box::new(Val::Bool(false)));
    let enc2 = encode(&opt, &pv);
    let as_params2: Vec<f64> = enc2.iter().map(|&b| b as f64).collect();
    assert_eq!(likelihood(&opt, &pv, &as_params2), 1.0);
}

#[test]
fn encode_into_writes_only_active_slots() {
    let t = Ty::Optional(Box::new(Ty::Bool));
    let mut buf = vec![9u8, 9, 9, 9];
    encode_into(&t, &Val::Absent, &mut buf);
    assert_eq!(buf, vec![1u8, 9, 9, 9]);

    let mut zeroed = zero_buffer(4);
    assert_eq!(zeroed, vec![0u8, 0, 0, 0]);
    encode_into(&t, &Val::Present(Box::new(Val::Bool(true))), &mut zeroed);
    assert_eq!(zeroed, vec![0u8, 1, 1, 0]);
}

#[test]
fn conforms_check_accepts_and_rejects() {
    let t = three_variant_union();
    assert!(conforms_check(&t, &Val::Case(0, vec![])));
    assert!(conforms_check(
        &t,
        &Val::Case(1, vec![Val::Bool(true), Val::Bool(false)])
    ));
    // variant index out of range
    assert!(!conforms_check(&t, &Val::Case(3, vec![])));
    // wrong field count for the variant
    assert!(!conforms_check(&t, &Val::Case(1, vec![Val::Bool(true)])));
    // wrong kind of value
    assert!(!conforms_check(&Ty::Bool, &Val::Unit));
    // array of the wrong length
    let arr = Ty::Array(Box::new(Ty::Bool), 2);
    assert!(!conforms_check(&arr, &Val::Fields(vec![Val::Bool(true)])));
    assert!(conforms_check(
        &arr,
        &Val::Fields(vec![Val::Bool(true), Val::Bool(false)])
    ));
}

#[test]
fn oversized_schema_is_refused() {
    assert_eq!(try_encoding_size(&Ty::Bool), Some(2));
    let t = three_variant_union();
    assert_eq!(try_encoding_size(&t), Some(9));
    let huge = Ty::Array(Box::new(Ty::Bool), usize::MAX);
    assert_eq!(try_encoding_size(&huge), None);
    let nested = Ty::Array(Box::new(Ty::Array(Box::new(Ty::Bool), usize::MAX)), usize::MAX);
    assert_eq!(try_encoding_size(&nested), None);
}

#[test]
fn empty_struct_likelihood_is_empty_product() {
    let t = Ty::Struct(vec![]);
    let v = Val::Fields(vec![]);
    assert_eq!(encoding_size(&t), 0);
    assert_eq!(encode(&t, &v), Vec::<u8>::new());
    assert_eq!(likelihood(&t, &v, &[]), 1.0);
}

#[test]
fn nested_union_with_optional_payload() {
    // one variant holds an optional boolean, the other nothing
    let t = Ty::Union(vec![vec![Ty::Optional(Box::new(Ty::Bool))], vec![]]);
    assert_eq!(encoding_size(&t), (1 + 4) + (1 + 0));
    let v = Val::Case(0, vec![Val::Present(Box::new(Val::Bool(false)))]);
    assert_eq!(encode(&t, &v), vec![1u8, 0, 1, 0, 1, 0]);
    let source = [0.5, 0.4, 0.9, 0.3, 0.8, 0.6];
    assert_eq!(likelihood(&t, &v, &source), 0.5 * 0.9 * 0.8);
    let other = Val::Case(1, vec![]);
    assert_eq!(encode(&t, &other), vec![0u8, 0, 0, 0, 0, 1]);
    assert_eq!(likelihood(&t, &other, &source), 0.6);
}

#[test]
fn likelihood_slots_are_the_set_slots() {
    let t = three_variant_union();
    let v = Val::Case(2, vec![Val::Bool(false)]);
    let slots = likelihood_slots(&t, &v);
    assert_eq!(slots, vec![6usize, 8]);
    let enc = encode(&t, &v);
    for (i, &b) in enc.iter().enumerate() {
        assert_eq!(b == 1, slots.contains(&i));
    }
}
