//! Concrete values and their conformance to a shape.

use vstd::prelude::*;
use crate::schema::Ty;

verus! {

/// A concrete value of some encodable shape.
///
/// A value carries no shape information of its own; [`conforms`] says
/// when a value fits a given [`Ty`].
#[derive(Debug)]
pub enum Val {
    /// A boolean value.
    Bool(bool),
    /// The unit value.
    Unit,
    /// An absent optional.
    Absent,
    /// A present optional, with its payload.
    Present(Box<Val>),
    /// The field list of a struct, tuple or fixed-size array value.
    Fields(Vec<Val>),
    /// A union value: the index of the active variant and its fields.
    Case(usize, Vec<Val>),
}

/// Whether a value fits a shape: booleans for the boolean shape, the
/// unit value for the unit shape, wrappers looking through to their
/// inner shape, array payloads of exactly the declared length, struct
/// payloads matching the field list pointwise, and union values naming
/// a variant that exists and carrying fields that fit it.
pub open spec fn conforms(t: Ty, v: Val) -> bool
    decreases t, 0nat,
{
    match t {
        Ty::Bool => v is Bool,
        Ty::Unit => v is Unit,
        Ty::Wrap(inner) => conforms(*inner, v),
        Ty::Optional(inner) => match v {
            Val::Absent => true,
            Val::Present(x) => conforms(*inner, *x),
            _ => false,
        },
        Ty::Array(elem, n) => match v {
            Val::Fields(vs) => vs@.len() == n && conforms_elems(*elem, vs@),
            _ => false,
        },
        Ty::Struct(fields) => match v {
            Val::Fields(vs) => conforms_fields(fields@, vs@),
            _ => false,
        },
        Ty::Union(variants) => match v {
            Val::Case(j, flds) => j < variants@.len() && conforms_fields(
                variants@[j as int]@,
                flds@,
            ),
            _ => false,
        },
    }
}

/// Whether a list of values fits a list of field shapes pointwise.
pub open spec fn conforms_fields(ts: Seq<Ty>, vs: Seq<Val>) -> bool
    decreases ts, 1nat,
{
    &&& vs.len() == ts.len()
    &&& (ts.len() == 0 || (conforms(ts[0], vs[0]) && conforms_fields(
        ts.drop_first(),
        vs.drop_first(),
    )))
}

/// Whether every value in a list fits one element shape.
pub open spec fn conforms_elems(elem: Ty, vs: Seq<Val>) -> bool
    decreases elem, vs.len() + 1,
{
    vs.len() == 0 || (conforms(elem, vs[0]) && conforms_elems(elem, vs.drop_first()))
}

/// Whether a value fits a shape, decided at run time.  Callers that
/// assemble values by hand can test this before asking for an encoding.
pub fn conforms_check(t: &Ty, v: &Val) -> (r: bool)
    ensures
        r == conforms(*t, *v),
    decreases *t, 0nat,
{
    match t {
        Ty::Bool => matches!(v, Val::Bool(_)),
        Ty::Unit => matches!(v, Val::Unit),
        Ty::Wrap(inner) => conforms_check(inner, v),
        Ty::Optional(inner) => match v {
            Val::Absent => true,
            Val::Present(x) => conforms_check(inner, x),
            _ => false,
        },
        Ty::Array(elem, n) => match v {
            Val::Fields(vs) => {
                if vs.len() != *n {
                    false
                } else {
                    proof {
                        assert(vs@.skip(0) =~= vs@);
                    }
                    conforms_elems_check(elem, vs, 0)
                }
            },
            _ => false,
        },
        Ty::Struct(fields) => match v {
            Val::Fields(vs) => {
                proof {
                    assert(fields@.skip(0) =~= fields@);
                    assert(vs@.skip(0) =~= vs@);
                }
                conforms_fields_check(fields, vs, 0)
            },
            _ => false,
        },
        Ty::Union(variants) => match v {
            Val::Case(j, flds) => {
                if *j >= variants.len() {
                    false
                } else {
                    proof {
                        assert(variants@[*j as int]@.skip(0) =~= variants@[*j as int]@);
                        assert(flds@.skip(0) =~= flds@);
                    }
                    conforms_fields_check(&variants[*j], flds, 0)
                }
            },
            _ => false,
        },
    }
}

/// Whether the values from position `i` on fit the field shapes from
/// position `i` on, pointwise.
fn conforms_fields_check(ts: &Vec<Ty>, vs: &Vec<Val>, i: usize) -> (r: bool)
    requires
        i <= ts.len(),
        i <= vs.len(),
    ensures
        r == conforms_fields(ts@.skip(i as int), vs@.skip(i as int)),
    decreases ts@, ts@.len() - i,
{
    if ts.len() - i != vs.len() - i {
        false
    } else if i == ts.len() {
        proof {
            assert(ts@.skip(i as int) =~= Seq::<Ty>::empty());
            assert(vs@.skip(i as int) =~= Seq::<Val>::empty());
        }
        true
    } else {
        proof {
            assert(ts@.skip(i as int)[0] == ts@[i as int]);
            assert(vs@.skip(i as int)[0] == vs@[i as int]);
            assert(ts@.skip(i as int).drop_first() =~= ts@.skip(i as int + 1));
            assert(vs@.skip(i as int).drop_first() =~= vs@.skip(i as int + 1));
        }
        conforms_check(&ts[i], &vs[i]) && conforms_fields_check(ts, vs, i + 1)
    }
}

/// Whether every value from position `i` on fits one element shape.
fn conforms_elems_check(elem: &Ty, vs: &Vec<Val>, i: usize) -> (r: bool)
    requires
        i <= vs.len(),
    ensures
        r == conforms_elems(*elem, vs@.skip(i as int)),
    decreases *elem, vs@.len() - i + 1,
{
    if i == vs.len() {
        proof {
            assert(vs@.skip(i as int) =~= Seq::<Val>::empty());
        }
        true
    } else {
        proof {
            assert(vs@.skip(i as int)[0] == vs@[i as int]);
            assert(vs@.skip(i as int).drop_first() =~= vs@.skip(i as int + 1));
        }
        conforms_check(elem, &vs[i]) && conforms_elems_check(elem, vs, i + 1)
    }
}

/// Pointwise conformance of a field list means elementwise conformance.
pub proof fn lemma_conforms_fields_index(ts: Seq<Ty>, vs: Seq<Val>, i: int)
    requires
        conforms_fields(ts, vs),
        0 <= i < ts.len(),
    ensures
        conforms(ts[i], vs[i]),
    decreases i,
{
    if i > 0 {
        lemma_conforms_fields_index(ts.drop_first(), vs.drop_first(), i - 1);
    }
}

/// Elementwise conformance to one shape, at any index.
pub proof fn lemma_conforms_elems_index(elem: Ty, vs: Seq<Val>, i: int)
    requires
        conforms_elems(elem, vs),
        0 <= i < vs.len(),
    ensures
        conforms(elem, vs[i]),
    decreases i,
{
    if i > 0 {
        lemma_conforms_elems_index(elem, vs.drop_first(), i - 1);
    }
}

} // verus!
