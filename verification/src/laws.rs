//! The layout algebra's governing laws, stated and proved once for
//! every shape.

use vstd::prelude::*;
use crate::schema::{
    Ty,
    size_of,
    size_of_fields,
    size_of_variants,
    field_offset,
    variant_offset,
    lemma_fields_size_split,
    lemma_variants_size_split,
};
use crate::value::{Val, conforms};
use crate::codec::{
    one_hot,
    slots,
    slots_elems,
    shift,
    selects,
    lemma_slots_select_one_hot,
    lemma_one_hot_len,
};

verus! {

/// Size additivity for structs: a struct's size is the sum of its
/// field sizes, accumulated field by field in declaration order.
pub proof fn lemma_struct_size_additivity(fields: Vec<Ty>)
    ensures
        size_of(Ty::Struct(fields)) == size_of_fields(fields@),
        size_of_fields(fields@.take(0)) == 0,
        forall|i: int|
            0 <= i < fields@.len() ==> size_of_fields(fields@.take(i + 1)) == size_of_fields(
                fields@.take(i),
            ) + size_of(fields@[i]),
{
    assert(size_of_fields(fields@.take(0)) == 0) by {
        assert(fields@.take(0) =~= Seq::<Ty>::empty());
    }
    assert forall|i: int| 0 <= i < fields@.len() implies size_of_fields(fields@.take(i + 1))
        == size_of_fields(fields@.take(i)) + size_of(fields@[i]) by {
        lemma_fields_size_split(fields@.take(i + 1), i);
        assert(fields@.take(i + 1).take(i) =~= fields@.take(i));
        assert(fields@.take(i + 1).skip(i) =~= seq![fields@[i]]);
        assert(seq![fields@[i]].drop_first() =~= Seq::<Ty>::empty());
        assert(seq![fields@[i]][0] == fields@[i]);
        assert(size_of_fields(Seq::<Ty>::empty()) == 0);
        assert(size_of_fields(seq![fields@[i]]) == size_of(fields@[i]));
    }
}

/// Size additivity for tagged unions: a union's size is the sum, over
/// all variants, of one tag slot plus the variant's payload size.
pub proof fn lemma_union_size_additivity(variants: Vec<Vec<Ty>>)
    ensures
        size_of(Ty::Union(variants)) == size_of_variants(variants@),
        size_of_variants(variants@.take(0)) == 0,
        forall|j: int|
            0 <= j < variants@.len() ==> size_of_variants(variants@.take(j + 1))
                == size_of_variants(variants@.take(j)) + 1 + size_of_fields(variants@[j]@),
{
    assert(size_of_variants(variants@.take(0)) == 0) by {
        assert(variants@.take(0) =~= Seq::<Vec<Ty>>::empty());
    }
    assert forall|j: int| 0 <= j < variants@.len() implies size_of_variants(variants@.take(j + 1))
        == size_of_variants(variants@.take(j)) + 1 + size_of_fields(variants@[j]@) by {
        lemma_variants_size_split(variants@.take(j + 1), j);
        assert(variants@.take(j + 1).take(j) =~= variants@.take(j));
        assert(variants@.take(j + 1).skip(j) =~= seq![variants@[j]]);
        assert(seq![variants@[j]].drop_first() =~= Seq::<Vec<Ty>>::empty());
        assert(seq![variants@[j]][0] == variants@[j]);
        assert(size_of_variants(Seq::<Vec<Ty>>::empty()) == 0);
        assert(size_of_variants(seq![variants@[j]]) == 1 + size_of_fields(variants@[j]@));
    }
}

/// Offset disjointness for struct fields: the field sub-ranges tile
/// `[0, size)` in declaration order — the first starts at zero, each
/// ends exactly where the next begins, the last ends at the struct's
/// size, and ranges of distinct fields never overlap.
pub proof fn lemma_field_offsets_partition(fields: Vec<Ty>)
    ensures
        field_offset(fields@, 0) == 0,
        field_offset(fields@, fields@.len() as int) == size_of(Ty::Struct(fields)),
        forall|i: int|
            0 <= i < fields@.len() ==> field_offset(fields@, i + 1) == field_offset(fields@, i)
                + size_of(fields@[i]),
        forall|i: int, i2: int|
            0 <= i < i2 < fields@.len() ==> field_offset(fields@, i) + size_of(fields@[i])
                <= field_offset(fields@, i2),
{
    lemma_struct_size_additivity(fields);
    assert(fields@.take(fields@.len() as int) =~= fields@);
    assert forall|i: int, i2: int| 0 <= i < i2 < fields@.len() implies field_offset(fields@, i)
        + size_of(fields@[i]) <= field_offset(fields@, i2) by {
        lemma_fields_size_split(fields@.take(i2), i + 1);
        assert(fields@.take(i2).take(i + 1) =~= fields@.take(i + 1));
    }
}

/// Offset disjointness for union variants: the tag-plus-payload
/// sub-ranges of the variants tile `[0, size)` in declaration order,
/// with no gap and no overlap.
pub proof fn lemma_variant_offsets_partition(variants: Vec<Vec<Ty>>)
    ensures
        variant_offset(variants@, 0) == 0,
        variant_offset(variants@, variants@.len() as int) == size_of(Ty::Union(variants)),
        forall|j: int|
            0 <= j < variants@.len() ==> variant_offset(variants@, j + 1) == variant_offset(
                variants@,
                j,
            ) + 1 + size_of_fields(variants@[j]@),
        forall|j: int, j2: int|
            0 <= j < j2 < variants@.len() ==> variant_offset(variants@, j) + 1 + size_of_fields(
                variants@[j]@,
            ) <= variant_offset(variants@, j2),
{
    lemma_union_size_additivity(variants);
    assert(variants@.take(variants@.len() as int) =~= variants@);
    assert forall|j: int, j2: int| 0 <= j < j2 < variants@.len() implies variant_offset(
        variants@,
        j,
    ) + 1 + size_of_fields(variants@[j]@) <= variant_offset(variants@, j2) by {
        lemma_variants_size_split(variants@.take(j2), j + 1);
        assert(variants@.take(j2).take(j + 1) =~= variants@.take(j + 1));
    }
}

/// Round-trip consistency: scoring a conforming value against its own
/// encoding consults exactly the slots the encoder set to one, each
/// exactly once and in increasing order.  Since every consulted slot of
/// the encoding holds one, the resulting product is exactly one.
pub proof fn lemma_round_trip(t: Ty, v: Val)
    requires
        conforms(t, v),
    ensures
        one_hot(t, v).len() == size_of(t),
        selects(slots(t, v), one_hot(t, v)),
        forall|k: int|
            0 <= k < slots(t, v).len() ==> one_hot(t, v)[#[trigger] slots(t, v)[k]] == true,
{
    lemma_one_hot_len(t, v);
    lemma_slots_select_one_hot(t, v);
}

/// The neutral element: a unit value selects no slot at all, so its
/// likelihood is the empty product — one — whatever the parameter
/// buffer holds.
pub proof fn lemma_unit_neutral(v: Val)
    requires
        conforms(Ty::Unit, v),
    ensures
        slots(Ty::Unit, v) == Seq::<int>::empty(),
        one_hot(Ty::Unit, v) == Seq::<bool>::empty(),
{
}

/// Splitting an array payload at any element splits its consulted
/// slots, the tail moved up by the elements before it.
proof fn lemma_slots_elems_split(elem: Ty, vs: Seq<Val>, i: int)
    requires
        0 <= i <= vs.len(),
    ensures
        slots_elems(elem, vs) == slots_elems(elem, vs.take(i)) + shift(
            slots_elems(elem, vs.skip(i)),
            i * size_of(elem),
        ),
    decreases i,
{
    if i == 0 {
        assert(vs.take(0) =~= Seq::<Val>::empty());
        assert(vs.skip(0) =~= vs);
        assert(slots_elems(elem, vs.take(0)) + shift(slots_elems(elem, vs), 0) =~= slots_elems(
            elem,
            vs,
        ));
    } else {
        lemma_slots_elems_split(elem, vs.drop_first(), i - 1);
        assert(vs.drop_first().take(i - 1) =~= vs.take(i).drop_first());
        assert(vs.drop_first().skip(i - 1) =~= vs.skip(i));
        assert(vs.take(i)[0] == vs[0]);
        let s = size_of(elem) as int;
        let a = slots_elems(elem, vs.take(i).drop_first());
        let b = slots_elems(elem, vs.skip(i));
        assert((i - 1) * s + s == i * s) by (nonlinear_arith);
        assert(shift(a + shift(b, (i - 1) * s), s) =~= shift(a, s) + shift(b, i * s));
        assert(slots(elem, vs[0]) + (shift(a, s) + shift(b, i * s)) =~= slots(elem, vs[0]) + shift(
            a,
            s,
        ) + shift(b, i * s));
        assert(slots_elems(elem, vs.take(i)) + shift(b, i * s) =~= slots(elem, vs[0]) + shift(a, s)
            + shift(b, i * s));
    }
}

/// Fixed-array factorization: the consulted slots of an array value
/// split around any element `i`, whose own consulted slots sit wholly
/// inside the `i`-th element-sized sub-range.  Each element therefore
/// contributes an independent factor to the likelihood, and a change
/// to one element's sub-range of the parameter buffer leaves every
/// other element's factor untouched.
pub proof fn lemma_array_factors(arr: Ty, vs: Vec<Val>, i: int)
    requires
        arr is Array,
        0 <= i < vs@.len(),
    ensures
        slots(arr, Val::Fields(vs)) == slots_elems(*arr->Array_0, vs@.take(i)) + shift(
            slots(*arr->Array_0, vs@[i]),
            i * size_of(*arr->Array_0),
        ) + shift(slots_elems(*arr->Array_0, vs@.skip(i + 1)), (i + 1) * size_of(*arr->Array_0)),
{
    let elem = *arr->Array_0;
    let s = size_of(elem) as int;
    lemma_slots_elems_split(elem, vs@, i);
    assert(vs@.skip(i)[0] == vs@[i]);
    assert(vs@.skip(i).drop_first() =~= vs@.skip(i + 1));
    let b = slots_elems(elem, vs@.skip(i + 1));
    assert(i * s + s == (i + 1) * s) by (nonlinear_arith);
    assert(shift(slots(elem, vs@[i]) + shift(b, s), i * s) =~= shift(slots(elem, vs@[i]), i * s)
        + shift(b, (i + 1) * s));
    assert(slots_elems(elem, vs@.take(i)) + (shift(slots(elem, vs@[i]), i * s) + shift(
        b,
        (i + 1) * s,
    )) =~= slots_elems(elem, vs@.take(i)) + shift(slots(elem, vs@[i]), i * s) + shift(
        b,
        (i + 1) * s,
    ));
}

} // verus!
