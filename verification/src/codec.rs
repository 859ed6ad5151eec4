//! The canonical one-hot encoding and the likelihood slot selection.
//!
//! A value's encoding is a buffer of `size_of` scalar slots in which
//! exactly the slots of [`one_hot`] are set to one; `encode` writes
//! those slots and leaves every other slot at its prior (caller-zeroed)
//! value.  The likelihood of a value under a parameter buffer of the
//! same layout is the product of the buffer entries at the slots of
//! [`slots`], in order; [`likelihood_slots`] computes those positions,
//! and the lemmas in [`crate::laws`] prove that they are exactly the
//! slots the encoder sets.

use vstd::prelude::*;
use crate::schema::{
    Ty,
    size_of,
    size_of_fields,
    size_of_variants,
    variant_offset,
    lemma_variants_size_split,
    encoding_size,
    variant_offset_to,
};
use crate::value::{Val, conforms, conforms_fields, conforms_elems};

verus! {

/// A run of `n` unset slots.
pub open spec fn falses(n: nat) -> Seq<bool> {
    Seq::new(n, |i: int| false)
}

/// All slot indices of a selection, moved up by `k`.
pub open spec fn shift(s: Seq<int>, k: int) -> Seq<int> {
    s.map_values(|x: int| x + k)
}

/// The one-hot encoding of a value: which of the `size_of` slots hold
/// one rather than zero.
///
/// A boolean sets its first slot when true and its second when false.
/// The unit value sets nothing.  An absent optional sets the first of
/// its two tag slots; a present one sets the second and encodes its
/// payload after both.  Arrays and structs concatenate the encodings of
/// their elements and fields in order.  A union value sets the tag slot
/// of its active variant and encodes that variant's fields in the rest
/// of the variant's sub-range; every other variant's sub-range stays
/// unset.
pub open spec fn one_hot(t: Ty, v: Val) -> Seq<bool>
    decreases t, 0nat,
{
    match t {
        Ty::Bool => match v {
            Val::Bool(b) => seq![b, !b],
            _ => Seq::empty(),
        },
        Ty::Unit => Seq::empty(),
        Ty::Wrap(inner) => one_hot(*inner, v),
        Ty::Optional(inner) => match v {
            Val::Absent => seq![true, false] + falses(size_of(*inner)),
            Val::Present(x) => seq![false, true] + one_hot(*inner, *x),
            _ => Seq::empty(),
        },
        Ty::Array(elem, _n) => match v {
            Val::Fields(vs) => one_hot_elems(*elem, vs@),
            _ => Seq::empty(),
        },
        Ty::Struct(fields) => match v {
            Val::Fields(vs) => one_hot_fields(fields@, vs@),
            _ => Seq::empty(),
        },
        Ty::Union(variants) => match v {
            Val::Case(j, flds) => one_hot_union(variants@, j as int, flds@),
            _ => Seq::empty(),
        },
    }
}

/// The concatenated one-hot encodings of a field list.
pub open spec fn one_hot_fields(ts: Seq<Ty>, vs: Seq<Val>) -> Seq<bool>
    decreases ts, 1nat,
{
    if ts.len() == 0 {
        Seq::empty()
    } else {
        one_hot(ts[0], vs[0]) + one_hot_fields(ts.drop_first(), vs.drop_first())
    }
}

/// The concatenated one-hot encodings of array elements.
pub open spec fn one_hot_elems(elem: Ty, vs: Seq<Val>) -> Seq<bool>
    decreases elem, vs.len() + 1,
{
    if vs.len() == 0 {
        Seq::empty()
    } else {
        one_hot(elem, vs[0]) + one_hot_elems(elem, vs.drop_first())
    }
}

/// The one-hot encoding of a union holding variant `j`: unset slots for
/// the variants before it, a set tag slot, the encoded fields, and
/// unset slots for the variants after it.
pub open spec fn one_hot_union(ws: Seq<Vec<Ty>>, j: int, flds: Seq<Val>) -> Seq<bool>
    decreases ws, 2nat,
{
    if ws.len() == 0 {
        Seq::empty()
    } else if j == 0 {
        seq![true] + one_hot_fields(ws[0]@, flds) + falses(size_of_variants(ws.drop_first()))
    } else {
        falses(1 + size_of_fields(ws[0]@)) + one_hot_union(ws.drop_first(), j - 1, flds)
    }
}

/// The slots a likelihood read consults, in reading order: the very
/// slots [`one_hot`] sets.  The likelihood of `v` under a parameter
/// buffer `p` is the product of `p` at these positions.
pub open spec fn slots(t: Ty, v: Val) -> Seq<int>
    decreases t, 0nat,
{
    match t {
        Ty::Bool => match v {
            Val::Bool(b) => if b {
                seq![0int]
            } else {
                seq![1int]
            },
            _ => Seq::empty(),
        },
        Ty::Unit => Seq::empty(),
        Ty::Wrap(inner) => slots(*inner, v),
        Ty::Optional(inner) => match v {
            Val::Absent => seq![0int],
            Val::Present(x) => seq![1int] + shift(slots(*inner, *x), 2),
            _ => Seq::empty(),
        },
        Ty::Array(elem, _n) => match v {
            Val::Fields(vs) => slots_elems(*elem, vs@),
            _ => Seq::empty(),
        },
        Ty::Struct(fields) => match v {
            Val::Fields(vs) => slots_fields(fields@, vs@),
            _ => Seq::empty(),
        },
        Ty::Union(variants) => match v {
            Val::Case(j, flds) => slots_union(variants@, j as int, flds@),
            _ => Seq::empty(),
        },
    }
}

/// The consulted slots of a field list: each field's slots, moved up to
/// the field's offset.
pub open spec fn slots_fields(ts: Seq<Ty>, vs: Seq<Val>) -> Seq<int>
    decreases ts, 1nat,
{
    if ts.len() == 0 {
        Seq::empty()
    } else {
        slots(ts[0], vs[0]) + shift(
            slots_fields(ts.drop_first(), vs.drop_first()),
            size_of(ts[0]) as int,
        )
    }
}

/// The consulted slots of an array payload.
pub open spec fn slots_elems(elem: Ty, vs: Seq<Val>) -> Seq<int>
    decreases elem, vs.len() + 1,
{
    if vs.len() == 0 {
        Seq::empty()
    } else {
        slots(elem, vs[0]) + shift(slots_elems(elem, vs.drop_first()), size_of(elem) as int)
    }
}

/// The consulted slots of a union holding variant `j`: the variant's
/// tag slot, then its fields' slots within the variant's sub-range.
/// Slots of other variants are never consulted.
pub open spec fn slots_union(ws: Seq<Vec<Ty>>, j: int, flds: Seq<Val>) -> Seq<int>
    decreases ws, 2nat,
{
    if ws.len() == 0 {
        Seq::empty()
    } else if j == 0 {
        seq![0int] + shift(slots_fields(ws[0]@, flds), 1)
    } else {
        shift(slots_union(ws.drop_first(), j - 1, flds), 1 + size_of_fields(ws[0]@) as int)
    }
}

/// How a slot selection relates to a one-hot buffer: every selected
/// position is in bounds, the positions strictly increase (no slot is
/// read twice), every selected slot is set, and every set slot is
/// selected.
pub open spec fn selects(s: Seq<int>, oh: Seq<bool>) -> bool {
    &&& forall|k: int| 0 <= k < s.len() ==> 0 <= #[trigger] s[k] < oh.len()
    &&& forall|k1: int, k2: int| 0 <= k1 < k2 < s.len() ==> #[trigger] s[k1] < #[trigger] s[k2]
    &&& forall|k: int| 0 <= k < s.len() ==> oh[#[trigger] s[k]]
    &&& forall|i: int| 0 <= i < oh.len() && #[trigger] oh[i] ==> s.contains(i)
}

/// Laying one selected block after another keeps the selection exact.
proof fn lemma_selects_concat(a: Seq<int>, oa: Seq<bool>, b: Seq<int>, ob: Seq<bool>)
    requires
        selects(a, oa),
        selects(b, ob),
    ensures
        selects(a + shift(b, oa.len() as int), oa + ob),
{
    let d = oa.len() as int;
    let s = a + shift(b, d);
    let oh = oa + ob;
    assert forall|k: int| 0 <= k < s.len() implies 0 <= #[trigger] s[k] < oh.len() by {
        if k >= a.len() {
            assert(s[k] == b[k - a.len()] + d);
        }
    }
    assert forall|k1: int, k2: int| 0 <= k1 < k2 < s.len() implies #[trigger] s[k1]
        < #[trigger] s[k2] by {
        if k1 >= a.len() {
            assert(s[k1] == b[k1 - a.len()] + d);
            assert(s[k2] == b[k2 - a.len()] + d);
        } else if k2 >= a.len() {
            assert(s[k2] == b[k2 - a.len()] + d);
        }
    }
    assert forall|k: int| 0 <= k < s.len() implies oh[#[trigger] s[k]] by {
        if k < a.len() {
            assert(oh[s[k]] == oa[a[k]]);
        } else {
            assert(s[k] == b[k - a.len()] + d);
            assert(oh[s[k]] == ob[b[k - a.len()]]);
        }
    }
    assert forall|i: int| 0 <= i < oh.len() && #[trigger] oh[i] implies s.contains(i) by {
        if i < d {
            assert(oa[i]);
            let k = choose|k: int| 0 <= k < a.len() && a[k] == i;
            assert(s[k] == i);
        } else {
            assert(ob[i - d]);
            let k = choose|k: int| 0 <= k < b.len() && b[k] == i - d;
            assert(s[a.len() + k] == b[k] + d);
        }
    }
}

/// Unset padding after a selected block adds no selected slot.
proof fn lemma_selects_pad_after(s: Seq<int>, oh: Seq<bool>, m: nat)
    requires
        selects(s, oh),
    ensures
        selects(s, oh + falses(m)),
{
    let ohp = oh + falses(m);
    assert forall|k: int| 0 <= k < s.len() implies ohp[#[trigger] s[k]] by {
        assert(ohp[s[k]] == oh[s[k]]);
    }
    assert forall|i: int| 0 <= i < ohp.len() && #[trigger] ohp[i] implies s.contains(i) by {
        if i < oh.len() {
            assert(oh[i]);
        } else {
            assert(ohp[i] == falses(m)[i - oh.len()]);
        }
    }
}

/// Unset padding before a selected block shifts every selected slot.
proof fn lemma_selects_pad_before(s: Seq<int>, oh: Seq<bool>, m: nat)
    requires
        selects(s, oh),
    ensures
        selects(shift(s, m as int), falses(m) + oh),
{
    let sp = shift(s, m as int);
    let ohp = falses(m) + oh;
    assert forall|k: int| 0 <= k < sp.len() implies 0 <= #[trigger] sp[k] < ohp.len() by {
        assert(sp[k] == s[k] + m);
    }
    assert forall|k1: int, k2: int| 0 <= k1 < k2 < sp.len() implies #[trigger] sp[k1]
        < #[trigger] sp[k2] by {
        assert(sp[k1] == s[k1] + m);
        assert(sp[k2] == s[k2] + m);
    }
    assert forall|k: int| 0 <= k < sp.len() implies ohp[#[trigger] sp[k]] by {
        assert(sp[k] == s[k] + m);
        assert(ohp[s[k] + m] == oh[s[k]]);
    }
    assert forall|i: int| 0 <= i < ohp.len() && #[trigger] ohp[i] implies sp.contains(i) by {
        if i < m {
            assert(ohp[i] == falses(m)[i]);
        } else {
            assert(oh[i - m]);
            let k = choose|k: int| 0 <= k < s.len() && s[k] == i - m;
            assert(sp[k] == s[k] + m);
        }
    }
}

/// A single selected slot, in a buffer where it is the only set slot.
proof fn lemma_selects_single(pos: int, oh: Seq<bool>)
    requires
        0 <= pos < oh.len(),
        oh[pos],
        forall|i: int| 0 <= i < oh.len() && i != pos ==> !(#[trigger] oh[i]),
    ensures
        selects(seq![pos], oh),
{
    assert(seq![pos][0] == pos);
    assert forall|i: int| 0 <= i < oh.len() && #[trigger] oh[i] implies seq![pos].contains(i) by {
        assert(i == pos);
        assert(seq![pos][0] == i);
    }
}

/// The likelihood read agrees with the encoder: for a conforming
/// value, the slots the likelihood read consults are in bounds,
/// strictly increasing, all set by the encoder, and they are the only
/// set slots.
pub proof fn lemma_slots_select_one_hot(t: Ty, v: Val)
    requires
        conforms(t, v),
    ensures
        selects(slots(t, v), one_hot(t, v)),
    decreases t, 0nat,
{
    match t {
        Ty::Bool => {
            match v {
                Val::Bool(b) => {
                    if b {
                        lemma_selects_single(0, seq![true, false]);
                    } else {
                        lemma_selects_single(1, seq![false, true]);
                    }
                },
                _ => {},
            }
        },
        Ty::Unit => {},
        Ty::Wrap(inner) => {
            lemma_slots_select_one_hot(*inner, v);
        },
        Ty::Optional(inner) => {
            match v {
                Val::Absent => {
                    lemma_selects_single(0, seq![true, false]);
                    lemma_selects_pad_after(seq![0int], seq![true, false], size_of(*inner));
                },
                Val::Present(x) => {
                    lemma_selects_single(1, seq![false, true]);
                    lemma_slots_select_one_hot(*inner, *x);
                    lemma_selects_concat(
                        seq![1int],
                        seq![false, true],
                        slots(*inner, *x),
                        one_hot(*inner, *x),
                    );
                },
                _ => {},
            }
        },
        Ty::Array(elem, _n) => {
            match v {
                Val::Fields(vs) => {
                    lemma_slots_elems_select(*elem, vs@);
                },
                _ => {},
            }
        },
        Ty::Struct(fields) => {
            match v {
                Val::Fields(vs) => {
                    lemma_slots_fields_select(fields@, vs@);
                },
                _ => {},
            }
        },
        Ty::Union(variants) => {
            match v {
                Val::Case(j, flds) => {
                    lemma_slots_union_select(variants@, j as int, flds@);
                },
                _ => {},
            }
        },
    }
}

/// Agreement for a field list: each field's slots land in its own
/// offset range, and together they select exactly the set slots.
pub proof fn lemma_slots_fields_select(ts: Seq<Ty>, vs: Seq<Val>)
    requires
        conforms_fields(ts, vs),
    ensures
        selects(slots_fields(ts, vs), one_hot_fields(ts, vs)),
    decreases ts, 1nat,
{
    if ts.len() > 0 {
        lemma_slots_select_one_hot(ts[0], vs[0]);
        lemma_slots_fields_select(ts.drop_first(), vs.drop_first());
        lemma_one_hot_len(ts[0], vs[0]);
        lemma_selects_concat(
            slots(ts[0], vs[0]),
            one_hot(ts[0], vs[0]),
            slots_fields(ts.drop_first(), vs.drop_first()),
            one_hot_fields(ts.drop_first(), vs.drop_first()),
        );
    }
}

/// Agreement for array elements, each in its own element-sized range.
pub proof fn lemma_slots_elems_select(elem: Ty, vs: Seq<Val>)
    requires
        conforms_elems(elem, vs),
    ensures
        selects(slots_elems(elem, vs), one_hot_elems(elem, vs)),
    decreases elem, vs.len() + 1,
{
    if vs.len() > 0 {
        lemma_slots_select_one_hot(elem, vs[0]);
        lemma_slots_elems_select(elem, vs.drop_first());
        lemma_one_hot_len(elem, vs[0]);
        lemma_selects_concat(
            slots(elem, vs[0]),
            one_hot(elem, vs[0]),
            slots_elems(elem, vs.drop_first()),
            one_hot_elems(elem, vs.drop_first()),
        );
    }
}

/// Agreement for a union value: the consulted slots are the active
/// variant's tag slot and its fields' slots, and the encoder sets
/// nothing else.
pub proof fn lemma_slots_union_select(ws: Seq<Vec<Ty>>, j: int, flds: Seq<Val>)
    requires
        0 <= j < ws.len(),
        conforms_fields(ws[j]@, flds),
    ensures
        selects(slots_union(ws, j, flds), one_hot_union(ws, j, flds)),
    decreases ws, 2nat,
{
    if j == 0 {
        lemma_slots_fields_select(ws[0]@, flds);
        lemma_selects_single(0, seq![true]);
        lemma_selects_concat(seq![0int], seq![true], slots_fields(ws[0]@, flds), one_hot_fields(ws[0]@, flds));
        lemma_selects_pad_after(
            seq![0int] + shift(slots_fields(ws[0]@, flds), 1),
            seq![true] + one_hot_fields(ws[0]@, flds),
            size_of_variants(ws.drop_first()),
        );
    } else {
        lemma_slots_union_select(ws.drop_first(), j - 1, flds);
        lemma_selects_pad_before(
            slots_union(ws.drop_first(), j - 1, flds),
            one_hot_union(ws.drop_first(), j - 1, flds),
            1 + size_of_fields(ws[0]@),
        );
    }
}

/// A conforming value's one-hot encoding fills exactly `size_of` slots.
pub proof fn lemma_one_hot_len(t: Ty, v: Val)
    requires
        conforms(t, v),
    ensures
        one_hot(t, v).len() == size_of(t),
    decreases t, 0nat,
{
    match t {
        Ty::Bool => {},
        Ty::Unit => {},
        Ty::Wrap(inner) => {
            lemma_one_hot_len(*inner, v);
        },
        Ty::Optional(inner) => {
            match v {
                Val::Absent => {},
                Val::Present(x) => {
                    lemma_one_hot_len(*inner, *x);
                },
                _ => {},
            }
        },
        Ty::Array(elem, n) => {
            match v {
                Val::Fields(vs) => {
                    lemma_one_hot_elems_len(*elem, vs@);
                },
                _ => {},
            }
        },
        Ty::Struct(fields) => {
            match v {
                Val::Fields(vs) => {
                    lemma_one_hot_fields_len(fields@, vs@);
                },
                _ => {},
            }
        },
        Ty::Union(variants) => {
            match v {
                Val::Case(j, flds) => {
                    lemma_one_hot_union_len(variants@, j as int, flds@);
                },
                _ => {},
            }
        },
    }
}

/// The encodings of a conforming field list fill the summed field size.
pub proof fn lemma_one_hot_fields_len(ts: Seq<Ty>, vs: Seq<Val>)
    requires
        conforms_fields(ts, vs),
    ensures
        one_hot_fields(ts, vs).len() == size_of_fields(ts),
    decreases ts, 1nat,
{
    if ts.len() > 0 {
        lemma_one_hot_len(ts[0], vs[0]);
        lemma_one_hot_fields_len(ts.drop_first(), vs.drop_first());
    }
}

/// The encodings of conforming array elements fill the element size,
/// once for every element.
pub proof fn lemma_one_hot_elems_len(elem: Ty, vs: Seq<Val>)
    requires
        conforms_elems(elem, vs),
    ensures
        one_hot_elems(elem, vs).len() == vs.len() * size_of(elem),
    decreases elem, vs.len() + 1,
{
    if vs.len() == 0 {
        assert(vs.len() * size_of(elem) == 0);
    } else {
        lemma_one_hot_len(elem, vs[0]);
        lemma_one_hot_elems_len(elem, vs.drop_first());
        assert(size_of(elem) + (vs.len() - 1) * size_of(elem) == vs.len() * size_of(elem))
            by (nonlinear_arith);
    }
}

/// The encoding of a conforming union value fills the summed size of
/// all variants.
pub proof fn lemma_one_hot_union_len(ws: Seq<Vec<Ty>>, j: int, flds: Seq<Val>)
    requires
        0 <= j < ws.len(),
        conforms_fields(ws[j]@, flds),
    ensures
        one_hot_union(ws, j, flds).len() == size_of_variants(ws),
    decreases ws, 2nat,
{
    if j == 0 {
        lemma_one_hot_fields_len(ws[0]@, flds);
    } else {
        lemma_one_hot_union_len(ws.drop_first(), j - 1, flds);
    }
}

/// A union's one-hot encoding laid out flat: unset slots up to the
/// active variant's offset, its set tag slot, its encoded fields, and
/// unset slots for the remaining variants.
pub proof fn lemma_one_hot_union_decompose(ws: Seq<Vec<Ty>>, j: int, flds: Seq<Val>)
    requires
        0 <= j < ws.len(),
        conforms_fields(ws[j]@, flds),
    ensures
        one_hot_union(ws, j, flds) == falses(variant_offset(ws, j)) + seq![true] + one_hot_fields(
            ws[j]@,
            flds,
        ) + falses(size_of_variants(ws.skip(j + 1))),
    decreases j,
{
    if j == 0 {
        assert(ws.take(0) =~= Seq::<Vec<Ty>>::empty());
        assert(ws.drop_first() =~= ws.skip(1));
        assert(falses(0) + seq![true] + one_hot_fields(ws[0]@, flds) + falses(
            size_of_variants(ws.skip(1)),
        ) =~= seq![true] + one_hot_fields(ws[0]@, flds) + falses(size_of_variants(ws.skip(1))));
    } else {
        let tail = ws.drop_first();
        assert(tail[j - 1] == ws[j]);
        lemma_one_hot_union_decompose(tail, j - 1, flds);
        assert(tail.skip(j - 1 + 1) =~= ws.skip(j + 1));
        assert(ws.take(j).drop_first() =~= tail.take(j - 1));
        assert(ws.take(j)[0] == ws[0]);
        assert(variant_offset(ws, j) == 1 + size_of_fields(ws[0]@) + variant_offset(tail, j - 1));
        assert(falses(1 + size_of_fields(ws[0]@)) + (falses(variant_offset(tail, j - 1))
            + seq![true] + one_hot_fields(ws[j]@, flds) + falses(
            size_of_variants(ws.skip(j + 1)),
        )) =~= falses(variant_offset(ws, j)) + seq![true] + one_hot_fields(ws[j]@, flds) + falses(
            size_of_variants(ws.skip(j + 1)),
        ));
    }
}

/// A zeroed buffer of `n` slots.
pub fn zero_buffer(n: usize) -> (r: Vec<u8>)
    ensures
        r@.len() == n,
        forall|i: int| 0 <= i < n ==> r@[i] == 0u8,
{
    let mut v: Vec<u8> = Vec::new();
    while v.len() < n
        invariant
            v@.len() <= n,
            forall|i: int| 0 <= i < v@.len() ==> v@[i] == 0u8,
        decreases n - v.len(),
    {
        v.push(0);
    }
    v
}

/// Writes the one-hot encoding of `v` into `target` at offset `at`:
/// slots that the encoding sets become one, every other slot keeps its
/// prior value.
#[verifier::rlimit(100)]
fn encode_at(t: &Ty, v: &Val, target: &mut Vec<u8>, at: usize)
    requires
        conforms(*t, *v),
        at + size_of(*t) <= old(target).len(),
    ensures
        final(target)@.len() == old(target)@.len(),
        forall|p: int|
            0 <= p < old(target)@.len() && !(at <= p < at + size_of(*t)) ==> final(target)@[p]
                == old(target)@[p],
        forall|k: int|
            0 <= k < size_of(*t) ==> final(target)@[at + k] == (if one_hot(*t, *v)[k] {
                1u8
            } else {
                old(target)@[at + k]
            }),
    decreases *t, 0nat,
{
    match t {
        Ty::Bool => {
            match v {
                Val::Bool(b) => {
                    if *b {
                        target.set(at, 1);
                    } else {
                        target.set(at + 1, 1);
                    }
                    proof {
                        assert(one_hot(*t, *v) == seq![*b, !*b]);
                        assert forall|k: int| 0 <= k < size_of(*t) implies target@[at + k] == (
                        if one_hot(*t, *v)[k] {
                            1u8
                        } else {
                            old(target)@[at + k]
                        }) by {
                            assert(seq![*b, !*b][0] == *b);
                            assert(seq![*b, !*b][1] == !*b);
                        }
                    }
                },
                _ => {
                    proof {
                        assert(false);
                    }
                },
            }
        },
        Ty::Unit => {},
        Ty::Wrap(inner) => {
            encode_at(inner, v, target, at);
            proof {
                assert(size_of(*t) == size_of(**inner));
                assert(one_hot(*t, *v) == one_hot(**inner, *v));
                assert forall|k: int| 0 <= k < size_of(*t) implies target@[at + k] == (
                if one_hot(*t, *v)[k] {
                    1u8
                } else {
                    old(target)@[at + k]
                }) by {
                    assert(target@[at + k] == (if one_hot(**inner, *v)[k] {
                        1u8
                    } else {
                        old(target)@[at + k]
                    }));
                }
            }
        },
        Ty::Optional(inner) => {
            match v {
                Val::Absent => {
                    target.set(at, 1);
                    proof {
                        let oh = one_hot(*t, *v);
                        assert(oh == seq![true, false] + falses(size_of(**inner)));
                        assert forall|k: int| 0 <= k < size_of(*t) implies target@[at + k] == (
                        if oh[k] {
                            1u8
                        } else {
                            old(target)@[at + k]
                        }) by {
                            if k == 0 {
                                assert(oh[0] == seq![true, false][0]);
                            } else if k == 1 {
                                assert(oh[1] == seq![true, false][1]);
                            } else {
                                assert(oh[k] == falses(size_of(**inner))[k - 2]);
                            }
                        }
                    }
                },
                Val::Present(x) => {
                    target.set(at + 1, 1);
                    let ghost mid = target@;
                    encode_at(inner, x, target, at + 2);
                    proof {
                        let oh = one_hot(*t, *v);
                        let ohi = one_hot(**inner, **x);
                        lemma_one_hot_len(**inner, **x);
                        assert(oh == seq![false, true] + ohi);
                        assert forall|k: int| 0 <= k < size_of(*t) implies target@[at + k] == (
                        if oh[k] {
                            1u8
                        } else {
                            old(target)@[at + k]
                        }) by {
                            if k == 0 {
                                assert(oh[0] == seq![false, true][0]);
                                assert(target@[at + 0] == mid[at + 0]);
                            } else if k == 1 {
                                assert(oh[1] == seq![false, true][1]);
                                assert(target@[at + 1] == mid[at + 1]);
                            } else {
                                assert(oh[k] == ohi[k - 2]);
                                assert(target@[at + 2 + (k - 2)] == (if ohi[k - 2] {
                                    1u8
                                } else {
                                    mid[at + 2 + (k - 2)]
                                }));
                                assert(mid[at + k] == old(target)@[at + k]);
                            }
                        }
                    }
                },
                _ => {
                    proof {
                        assert(false);
                    }
                },
            }
        },
        Ty::Array(elem, n) => {
            match v {
                Val::Fields(vs) => {
                    proof {
                        assert(vs@.skip(0) =~= vs@);
                        assert((vs@.len() - 0) * size_of(**elem) == (*n as nat) * size_of(**elem));
                    }
                    encode_elems_from(elem, vs, 0, target, at);
                    proof {
                        assert forall|k: int| 0 <= k < size_of(*t) implies target@[at + k] == (
                        if one_hot(*t, *v)[k] {
                            1u8
                        } else {
                            old(target)@[at + k]
                        }) by {
                            assert(target@[at + k] == (if one_hot_elems(**elem, vs@.skip(0))[k] {
                                1u8
                            } else {
                                old(target)@[at + k]
                            }));
                        }
                    }
                },
                _ => {
                    proof {
                        assert(false);
                    }
                },
            }
        },
        Ty::Struct(fields) => {
            match v {
                Val::Fields(vs) => {
                    proof {
                        assert(fields@.skip(0) =~= fields@);
                        assert(vs@.skip(0) =~= vs@);
                    }
                    encode_fields_from(fields, vs, 0, target, at);
                    proof {
                        assert forall|k: int| 0 <= k < size_of(*t) implies target@[at + k] == (
                        if one_hot(*t, *v)[k] {
                            1u8
                        } else {
                            old(target)@[at + k]
                        }) by {
                            assert(target@[at + k] == (if one_hot_fields(
                                fields@.skip(0),
                                vs@.skip(0),
                            )[k] {
                                1u8
                            } else {
                                old(target)@[at + k]
                            }));
                        }
                    }
                },
                _ => {
                    proof {
                        assert(false);
                    }
                },
            }
        },
        Ty::Union(variants) => {
            match v {
                Val::Case(j, flds) => {
                    proof {
                        lemma_variants_size_split(variants@, *j as int);
                        assert(variants@.skip(*j as int)[0] == variants@[*j as int]);
                        assert(variants@.skip(*j as int).drop_first() =~= variants@.skip(
                            *j as int + 1,
                        ));
                        lemma_one_hot_union_decompose(variants@, *j as int, flds@);
                        lemma_one_hot_fields_len(variants@[*j as int]@, flds@);
                        assert(variants@[*j as int]@.skip(0) =~= variants@[*j as int]@);
                        assert(flds@.skip(0) =~= flds@);
                    }
                    let voff = variant_offset_to(variants, *j);
                    target.set(at + voff, 1);
                    let ghost mid = target@;
                    encode_fields_from(&variants[*j], flds, 0, target, at + voff + 1);
                    proof {
                        let ws = variants@;
                        let jj = *j as int;
                        let oh = one_hot(*t, *v);
                        let ohf = one_hot_fields(ws[jj]@, flds@);
                        let szf = size_of_fields(ws[jj]@) as int;
                        let rest = size_of_variants(ws.skip(jj + 1)) as int;
                        assert(oh == falses(variant_offset(ws, jj)) + seq![true] + ohf + falses(
                            rest as nat,
                        ));
                        assert(size_of(*t) == voff + 1 + szf + rest);
                        assert forall|k: int| 0 <= k < size_of(*t) implies target@[at + k] == (
                        if oh[k] {
                            1u8
                        } else {
                            old(target)@[at + k]
                        }) by {
                            if k < voff {
                                assert(oh[k] == falses(variant_offset(ws, jj))[k]);
                                assert(target@[at + k] == mid[at + k]);
                            } else if k == voff {
                                assert(oh[k] == seq![true][0]);
                                assert(target@[at + k] == mid[at + k]);
                            } else if k < voff + 1 + szf {
                                assert(oh[k] == ohf[k - voff - 1]);
                                assert(target@[(at + voff + 1) + (k - voff - 1)] == (if ohf[k - voff
                                    - 1] {
                                    1u8
                                } else {
                                    mid[(at + voff + 1) + (k - voff - 1)]
                                }));
                                assert(mid[at + k] == old(target)@[at + k]);
                            } else {
                                assert(oh[k] == falses(rest as nat)[k - voff - 1 - szf]);
                                assert(target@[at + k] == mid[at + k]);
                            }
                        }
                    }
                },
                _ => {
                    proof {
                        assert(false);
                    }
                },
            }
        },
    }
}

/// Writes the fields from position `i` on, each at its own offset.
fn encode_fields_from(ts: &Vec<Ty>, vs: &Vec<Val>, i: usize, target: &mut Vec<u8>, at: usize)
    requires
        i <= ts.len(),
        i <= vs.len(),
        conforms_fields(ts@.skip(i as int), vs@.skip(i as int)),
        at + size_of_fields(ts@.skip(i as int)) <= old(target).len(),
    ensures
        final(target)@.len() == old(target)@.len(),
        forall|p: int|
            0 <= p < old(target)@.len() && !(at <= p < at + size_of_fields(ts@.skip(i as int)))
                ==> final(target)@[p] == old(target)@[p],
        forall|k: int|
            0 <= k < size_of_fields(ts@.skip(i as int)) ==> final(target)@[at + k] == (
            if one_hot_fields(ts@.skip(i as int), vs@.skip(i as int))[k] {
                1u8
            } else {
                old(target)@[at + k]
            }),
    decreases ts@, ts@.len() - i,
{
    if i < ts.len() {
        proof {
            assert(ts@.skip(i as int)[0] == ts@[i as int]);
            assert(vs@.skip(i as int)[0] == vs@[i as int]);
            assert(ts@.skip(i as int).drop_first() =~= ts@.skip(i as int + 1));
            assert(vs@.skip(i as int).drop_first() =~= vs@.skip(i as int + 1));
            lemma_one_hot_len(ts@[i as int], vs@[i as int]);
        }
        let fsize = encoding_size(&ts[i]);
        encode_at(&ts[i], &vs[i], target, at);
        let ghost mid = target@;
        encode_fields_from(ts, vs, i + 1, target, at + fsize);
        proof {
            let s_i = ts@.skip(i as int);
            let v_i = vs@.skip(i as int);
            let ohh = one_hot(ts@[i as int], vs@[i as int]);
            let oht = one_hot_fields(ts@.skip(i as int + 1), vs@.skip(i as int + 1));
            let s0 = size_of(ts@[i as int]) as int;
            let total = size_of_fields(s_i) as int;
            lemma_one_hot_fields_len(ts@.skip(i as int + 1), vs@.skip(i as int + 1));
            assert(one_hot_fields(s_i, v_i) == ohh + oht);
            assert forall|k: int| 0 <= k < total implies target@[at + k] == (
            if one_hot_fields(s_i, v_i)[k] {
                1u8
            } else {
                old(target)@[at + k]
            }) by {
                if k < s0 {
                    assert(one_hot_fields(s_i, v_i)[k] == ohh[k]);
                    assert(target@[at + k] == mid[at + k]);
                } else {
                    assert(one_hot_fields(s_i, v_i)[k] == oht[k - s0]);
                    assert(target@[(at + fsize) + (k - s0)] == (if oht[k - s0] {
                        1u8
                    } else {
                        mid[(at + fsize) + (k - s0)]
                    }));
                    assert(mid[at + k] == old(target)@[at + k]);
                }
            }
        }
    }
}

/// Writes the array elements from position `i` on, each at its own
/// element-sized offset.
fn encode_elems_from(elem: &Ty, vs: &Vec<Val>, i: usize, target: &mut Vec<u8>, at: usize)
    requires
        i <= vs.len(),
        conforms_elems(*elem, vs@.skip(i as int)),
        at + (vs.len() - i) * size_of(*elem) <= old(target).len(),
    ensures
        final(target)@.len() == old(target)@.len(),
        forall|p: int|
            0 <= p < old(target)@.len() && !(at <= p < at + (vs.len() - i) * size_of(*elem))
                ==> final(target)@[p] == old(target)@[p],
        forall|k: int|
            0 <= k < (vs.len() - i) * size_of(*elem) ==> final(target)@[at + k] == (
            if one_hot_elems(*elem, vs@.skip(i as int))[k] {
                1u8
            } else {
                old(target)@[at + k]
            }),
    decreases *elem, vs@.len() - i + 1,
{
    proof {
        lemma_one_hot_elems_len(*elem, vs@.skip(i as int));
        assert((vs.len() - i) * size_of(*elem) == vs@.skip(i as int).len() * size_of(*elem));
    }
    if i < vs.len() {
        proof {
            assert(vs@.skip(i as int)[0] == vs@[i as int]);
            assert(vs@.skip(i as int).drop_first() =~= vs@.skip(i as int + 1));
            lemma_one_hot_len(*elem, vs@[i as int]);
            assert((vs.len() - i) * size_of(*elem) == size_of(*elem) + (vs.len() - (i + 1))
                * size_of(*elem)) by (nonlinear_arith)
                requires
                    i < vs.len(),
            ;
            assert(size_of(*elem) <= (vs.len() - i) * size_of(*elem)) by (nonlinear_arith)
                requires
                    i < vs.len(),
            ;
        }
        let esize = encoding_size(elem);
        encode_at(elem, &vs[i], target, at);
        let ghost mid = target@;
        encode_elems_from(elem, vs, i + 1, target, at + esize);
        proof {
            let v_i = vs@.skip(i as int);
            let ohh = one_hot(*elem, vs@[i as int]);
            let oht = one_hot_elems(*elem, vs@.skip(i as int + 1));
            let s0 = size_of(*elem) as int;
            let total = ((vs.len() - i) * size_of(*elem)) as int;
            lemma_one_hot_elems_len(*elem, vs@.skip(i as int + 1));
            assert(one_hot_elems(*elem, v_i) == ohh + oht);
            assert forall|k: int| 0 <= k < total implies target@[at + k] == (
            if one_hot_elems(*elem, v_i)[k] {
                1u8
            } else {
                old(target)@[at + k]
            }) by {
                if k < s0 {
                    assert(one_hot_elems(*elem, v_i)[k] == ohh[k]);
                    assert(target@[at + k] == mid[at + k]);
                } else {
                    assert(one_hot_elems(*elem, v_i)[k] == oht[k - s0]);
                    assert(target@[(at + esize) + (k - s0)] == (if oht[k - s0] {
                        1u8
                    } else {
                        mid[(at + esize) + (k - s0)]
                    }));
                    assert(mid[at + k] == old(target)@[at + k]);
                }
            }
        }
    }
}

/// Writes the one-hot encoding of `v` into a buffer of exactly
/// `size_of` slots.  Only the slots the encoding sets are written; the
/// caller supplies the buffer pre-zeroed (or deliberately not, since
/// untouched slots keep their prior value).
pub fn encode_into(t: &Ty, v: &Val, target: &mut Vec<u8>)
    requires
        conforms(*t, *v),
        old(target).len() == size_of(*t),
    ensures
        final(target)@.len() == old(target)@.len(),
        forall|k: int|
            0 <= k < size_of(*t) ==> final(target)@[k] == (if one_hot(*t, *v)[k] {
                1u8
            } else {
                old(target)@[k]
            }),
{
    encode_at(t, v, target, 0);
}

/// The canonical encoding of a conforming value: a fresh buffer of
/// `size_of` slots holding one at every slot of the value's one-hot
/// encoding and zero everywhere else.
pub fn encode(t: &Ty, v: &Val) -> (r: Vec<u8>)
    requires
        conforms(*t, *v),
        size_of(*t) <= usize::MAX,
    ensures
        r@.len() == size_of(*t),
        forall|k: int|
            0 <= k < size_of(*t) ==> r@[k] == (if one_hot(*t, *v)[k] {
                1u8
            } else {
                0u8
            }),
{
    let n = encoding_size(t);
    let mut buf = zero_buffer(n);
    encode_into(t, v, &mut buf);
    buf
}

/// A sequence of buffer positions, as mathematical integers.
pub open spec fn to_ints(s: Seq<usize>) -> Seq<int> {
    s.map_values(|u: usize| u as int)
}

/// A union's consulted slots laid out flat: the active variant's tag
/// slot at the variant's offset, then its fields' slots after the tag.
pub proof fn lemma_slots_union_decompose(ws: Seq<Vec<Ty>>, j: int, flds: Seq<Val>)
    requires
        0 <= j < ws.len(),
    ensures
        slots_union(ws, j, flds) == seq![variant_offset(ws, j) as int] + shift(
            slots_fields(ws[j]@, flds),
            variant_offset(ws, j) as int + 1,
        ),
    decreases j,
{
    if j == 0 {
        assert(ws.take(0) =~= Seq::<Vec<Ty>>::empty());
        assert(seq![0int] + shift(slots_fields(ws[0]@, flds), 1) =~= seq![
            variant_offset(ws, 0) as int,
        ] + shift(slots_fields(ws[0]@, flds), variant_offset(ws, 0) as int + 1));
    } else {
        let tail = ws.drop_first();
        assert(tail[j - 1] == ws[j]);
        lemma_slots_union_decompose(tail, j - 1, flds);
        assert(ws.take(j).drop_first() =~= tail.take(j - 1));
        assert(ws.take(j)[0] == ws[0]);
        assert(variant_offset(ws, j) == 1 + size_of_fields(ws[0]@) + variant_offset(tail, j - 1));
        assert(shift(
            seq![variant_offset(tail, j - 1) as int] + shift(
                slots_fields(ws[j]@, flds),
                variant_offset(tail, j - 1) as int + 1,
            ),
            1 + size_of_fields(ws[0]@) as int,
        ) =~= seq![variant_offset(ws, j) as int] + shift(
            slots_fields(ws[j]@, flds),
            variant_offset(ws, j) as int + 1,
        ));
    }
}

/// Pushes the consulted slots of `v`, each moved up by `base`, onto
/// `out` in reading order.
#[verifier::rlimit(100)]
fn push_slots(t: &Ty, v: &Val, base: usize, out: &mut Vec<usize>)
    requires
        conforms(*t, *v),
        base + size_of(*t) <= usize::MAX,
    ensures
        to_ints(final(out)@) == to_ints(old(out)@) + shift(slots(*t, *v), base as int),
    decreases *t, 0nat,
{
    match t {
        Ty::Bool => {
            match v {
                Val::Bool(b) => {
                    let pos: usize = if *b {
                        base
                    } else {
                        base + 1
                    };
                    out.push(pos);
                    proof {
                        assert(to_ints(out@) =~= to_ints(old(out)@) + shift(
                            slots(*t, *v),
                            base as int,
                        ));
                    }
                },
                _ => {
                    proof {
                        assert(false);
                    }
                },
            }
        },
        Ty::Unit => {
            proof {
                assert(to_ints(out@) =~= to_ints(old(out)@) + shift(slots(*t, *v), base as int));
            }
        },
        Ty::Wrap(inner) => {
            push_slots(inner, v, base, out);
        },
        Ty::Optional(inner) => {
            match v {
                Val::Absent => {
                    out.push(base);
                    proof {
                        assert(to_ints(out@) =~= to_ints(old(out)@) + shift(
                            slots(*t, *v),
                            base as int,
                        ));
                    }
                },
                Val::Present(x) => {
                    out.push(base + 1);
                    let ghost mid = out@;
                    push_slots(inner, x, base + 2, out);
                    proof {
                        let si = slots(**inner, **x);
                        assert(to_ints(mid) =~= to_ints(old(out)@) + seq![base as int + 1]);
                        assert(slots(*t, *v) == seq![1int] + shift(si, 2));
                        assert(to_ints(out@) =~= to_ints(old(out)@) + shift(
                            slots(*t, *v),
                            base as int,
                        ));
                    }
                },
                _ => {
                    proof {
                        assert(false);
                    }
                },
            }
        },
        Ty::Array(elem, n) => {
            match v {
                Val::Fields(vs) => {
                    proof {
                        assert(vs@.skip(0) =~= vs@);
                        assert((vs@.len() - 0) * size_of(**elem) == (*n as nat) * size_of(**elem));
                    }
                    push_elems_slots(elem, vs, 0, base, out);
                },
                _ => {
                    proof {
                        assert(false);
                    }
                },
            }
        },
        Ty::Struct(fields) => {
            match v {
                Val::Fields(vs) => {
                    proof {
                        assert(fields@.skip(0) =~= fields@);
                        assert(vs@.skip(0) =~= vs@);
                    }
                    push_fields_slots(fields, vs, 0, base, out);
                },
                _ => {
                    proof {
                        assert(false);
                    }
                },
            }
        },
        Ty::Union(variants) => {
            match v {
                Val::Case(j, flds) => {
                    proof {
                        lemma_variants_size_split(variants@, *j as int);
                        assert(variants@.skip(*j as int)[0] == variants@[*j as int]);
                        assert(variants@.skip(*j as int).drop_first() =~= variants@.skip(
                            *j as int + 1,
                        ));
                        lemma_slots_union_decompose(variants@, *j as int, flds@);
                        assert(variants@[*j as int]@.skip(0) =~= variants@[*j as int]@);
                        assert(flds@.skip(0) =~= flds@);
                    }
                    let voff = variant_offset_to(variants, *j);
                    out.push(base + voff);
                    let ghost mid = out@;
                    push_fields_slots(&variants[*j], flds, 0, base + voff + 1, out);
                    proof {
                        let fsl = slots_fields(variants@[*j as int]@, flds@);
                        assert(to_ints(mid) =~= to_ints(old(out)@) + seq![base as int + voff]);
                        assert(to_ints(out@) =~= to_ints(old(out)@) + shift(
                            slots(*t, *v),
                            base as int,
                        ));
                    }
                },
                _ => {
                    proof {
                        assert(false);
                    }
                },
            }
        },
    }
}

/// Pushes the consulted slots of the fields from position `i` on.
fn push_fields_slots(ts: &Vec<Ty>, vs: &Vec<Val>, i: usize, base: usize, out: &mut Vec<usize>)
    requires
        i <= ts.len(),
        i <= vs.len(),
        conforms_fields(ts@.skip(i as int), vs@.skip(i as int)),
        base + size_of_fields(ts@.skip(i as int)) <= usize::MAX,
    ensures
        to_ints(final(out)@) == to_ints(old(out)@) + shift(
            slots_fields(ts@.skip(i as int), vs@.skip(i as int)),
            base as int,
        ),
    decreases ts@, ts@.len() - i,
{
    if i < ts.len() {
        proof {
            assert(ts@.skip(i as int)[0] == ts@[i as int]);
            assert(vs@.skip(i as int)[0] == vs@[i as int]);
            assert(ts@.skip(i as int).drop_first() =~= ts@.skip(i as int + 1));
            assert(vs@.skip(i as int).drop_first() =~= vs@.skip(i as int + 1));
        }
        let s0 = encoding_size(&ts[i]);
        push_slots(&ts[i], &vs[i], base, out);
        let ghost mid = out@;
        push_fields_slots(ts, vs, i + 1, base + s0, out);
        proof {
            let head = slots(ts@[i as int], vs@[i as int]);
            let tail = slots_fields(ts@.skip(i as int + 1), vs@.skip(i as int + 1));
            assert(slots_fields(ts@.skip(i as int), vs@.skip(i as int)) == head + shift(
                tail,
                size_of(ts@[i as int]) as int,
            ));
            assert(to_ints(out@) =~= to_ints(old(out)@) + shift(
                slots_fields(ts@.skip(i as int), vs@.skip(i as int)),
                base as int,
            ));
        }
    } else {
        proof {
            assert(to_ints(out@) =~= to_ints(old(out)@) + shift(
                slots_fields(ts@.skip(i as int), vs@.skip(i as int)),
                base as int,
            ));
        }
    }
}

/// Pushes the consulted slots of the array elements from position `i`
/// on.
fn push_elems_slots(elem: &Ty, vs: &Vec<Val>, i: usize, base: usize, out: &mut Vec<usize>)
    requires
        i <= vs.len(),
        conforms_elems(*elem, vs@.skip(i as int)),
        base + (vs.len() - i) * size_of(*elem) <= usize::MAX,
    ensures
        to_ints(final(out)@) == to_ints(old(out)@) + shift(
            slots_elems(*elem, vs@.skip(i as int)),
            base as int,
        ),
    decreases *elem, vs@.len() - i + 1,
{
    if i < vs.len() {
        proof {
            assert(vs@.skip(i as int)[0] == vs@[i as int]);
            assert(vs@.skip(i as int).drop_first() =~= vs@.skip(i as int + 1));
            assert((vs.len() - i) * size_of(*elem) == size_of(*elem) + (vs.len() - (i + 1))
                * size_of(*elem)) by (nonlinear_arith)
                requires
                    i < vs.len(),
            ;
            assert(size_of(*elem) <= (vs.len() - i) * size_of(*elem)) by (nonlinear_arith)
                requires
                    i < vs.len(),
            ;
        }
        let s0 = encoding_size(elem);
        push_slots(elem, &vs[i], base, out);
        let ghost mid = out@;
        push_elems_slots(elem, vs, i + 1, base + s0, out);
        proof {
            let head = slots(*elem, vs@[i as int]);
            let tail = slots_elems(*elem, vs@.skip(i as int + 1));
            assert(slots_elems(*elem, vs@.skip(i as int)) == head + shift(
                tail,
                size_of(*elem) as int,
            ));
            assert(to_ints(out@) =~= to_ints(old(out)@) + shift(
                slots_elems(*elem, vs@.skip(i as int)),
                base as int,
            ));
        }
    } else {
        proof {
            assert(to_ints(out@) =~= to_ints(old(out)@) + shift(
                slots_elems(*elem, vs@.skip(i as int)),
                base as int,
            ));
        }
    }
}

/// The buffer positions a likelihood read consults, in reading order.
///
/// The likelihood of `v` under a parameter buffer `p` of `size_of`
/// slots is the product of `p` at exactly these positions: the scoring
/// rule reads the tag or branch slot of every choice the value makes
/// and the payload slots beneath it, and nothing else.
pub fn likelihood_slots(t: &Ty, v: &Val) -> (r: Vec<usize>)
    requires
        conforms(*t, *v),
        size_of(*t) <= usize::MAX,
    ensures
        to_ints(r@) == slots(*t, *v),
        forall|k: int| 0 <= k < r@.len() ==> (#[trigger] r@[k]) < size_of(*t),
{
    let mut out: Vec<usize> = Vec::new();
    push_slots(t, v, 0, &mut out);
    proof {
        assert(to_ints(out@) =~= slots(*t, *v));
        lemma_slots_select_one_hot(*t, *v);
        lemma_one_hot_len(*t, *v);
        assert forall|k: int| 0 <= k < out@.len() implies (out@[k]) < size_of(*t) by {
            assert(to_ints(out@)[k] == out@[k] as int);
            assert(slots(*t, *v)[k] < one_hot(*t, *v).len());
        }
    }
    out
}

} // verus!
