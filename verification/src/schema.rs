//! Shape descriptions and their fixed encoding sizes.

use vstd::prelude::*;

verus! {

/// A static description of an encodable shape.
///
/// Every shape has a fixed encoding size, independent of any particular
/// value: two slots for a boolean, none for the unit shape, the inner
/// size for a wrapper, two tag slots plus the inner size for an
/// optional, `n` copies of the element size for a fixed-size array, the
/// sum of the field sizes for a struct (tuples are structs with
/// positional fields), and, for a tagged union, one tag slot plus the
/// payload size for every variant, concatenated.
#[derive(Debug)]
pub enum Ty {
    /// A boolean, encoded one-hot over two slots.
    Bool,
    /// The unit shape: no slots at all.
    Unit,
    /// A reference or wrapper around another shape; pure pass-through.
    Wrap(Box<Ty>),
    /// An optional value: two tag slots, then the inner payload.
    Optional(Box<Ty>),
    /// A fixed-size array of `n` elements of one shape.
    Array(Box<Ty>, usize),
    /// A product of fields, laid out contiguously in declaration order.
    Struct(Vec<Ty>),
    /// A tagged union: each variant owns a tag slot plus its fields.
    Union(Vec<Vec<Ty>>),
}

/// The fixed encoding size of a shape, in scalar slots.
pub open spec fn size_of(t: Ty) -> nat
    decreases t,
{
    match t {
        Ty::Bool => 2,
        Ty::Unit => 0,
        Ty::Wrap(inner) => size_of(*inner),
        Ty::Optional(inner) => 2 + size_of(*inner),
        Ty::Array(elem, n) => (n as nat) * size_of(*elem),
        Ty::Struct(fields) => size_of_fields(fields@),
        Ty::Union(variants) => size_of_variants(variants@),
    }
}

/// The summed size of a list of fields.
pub open spec fn size_of_fields(fields: Seq<Ty>) -> nat
    decreases fields,
{
    if fields.len() == 0 {
        0
    } else {
        size_of(fields[0]) + size_of_fields(fields.drop_first())
    }
}

/// The summed size of a list of union variants: one tag slot plus the
/// payload size for each.
pub open spec fn size_of_variants(variants: Seq<Vec<Ty>>) -> nat
    decreases variants,
{
    if variants.len() == 0 {
        0
    } else {
        1 + size_of_fields(variants[0]@) + size_of_variants(variants.drop_first())
    }
}

/// The offset of field `i` within its parent's buffer: the summed size
/// of the fields before it.
pub open spec fn field_offset(fields: Seq<Ty>, i: int) -> nat {
    size_of_fields(fields.take(i))
}

/// The offset of variant `j`'s sub-range within a union's buffer: the
/// summed tag-plus-payload size of the variants before it.
pub open spec fn variant_offset(variants: Seq<Vec<Ty>>, j: int) -> nat {
    size_of_variants(variants.take(j))
}

/// Splitting a field list at any point splits its summed size.
pub proof fn lemma_fields_size_split(fields: Seq<Ty>, i: int)
    requires
        0 <= i <= fields.len(),
    ensures
        size_of_fields(fields) == size_of_fields(fields.take(i)) + size_of_fields(fields.skip(i)),
    decreases i,
{
    if i == 0 {
        assert(fields.take(0) =~= Seq::<Ty>::empty());
        assert(fields.skip(0) =~= fields);
    } else {
        lemma_fields_size_split(fields.drop_first(), i - 1);
        assert(fields.take(i).drop_first() =~= fields.drop_first().take(i - 1));
        assert(fields.skip(i) =~= fields.drop_first().skip(i - 1));
        assert(fields.take(i)[0] == fields[0]);
    }
}

/// Splitting a variant list at any point splits its summed size.
pub proof fn lemma_variants_size_split(variants: Seq<Vec<Ty>>, j: int)
    requires
        0 <= j <= variants.len(),
    ensures
        size_of_variants(variants) == size_of_variants(variants.take(j)) + size_of_variants(
            variants.skip(j),
        ),
    decreases j,
{
    if j == 0 {
        assert(variants.take(0) =~= Seq::<Vec<Ty>>::empty());
        assert(variants.skip(0) =~= variants);
    } else {
        lemma_variants_size_split(variants.drop_first(), j - 1);
        assert(variants.take(j).drop_first() =~= variants.drop_first().take(j - 1));
        assert(variants.skip(j) =~= variants.drop_first().skip(j - 1));
        assert(variants.take(j)[0] == variants[0]);
    }
}

/// Appending a field grows the summed size by the field's size.
pub proof fn lemma_fields_size_push(fields: Seq<Ty>, t: Ty)
    ensures
        size_of_fields(fields.push(t)) == size_of_fields(fields) + size_of(t),
{
    lemma_fields_size_split(fields.push(t), fields.len() as int);
    assert(fields.push(t).take(fields.len() as int) =~= fields);
    assert(fields.push(t).skip(fields.len() as int) =~= seq![t]);
    assert(seq![t].drop_first() =~= Seq::<Ty>::empty());
    assert(seq![t][0] == t);
    assert(size_of_fields(Seq::<Ty>::empty()) == 0);
    assert(size_of_fields(seq![t]) == size_of(t));
}

/// Appending a variant grows the summed size by one tag slot plus the
/// variant's payload size.
pub proof fn lemma_variants_size_push(variants: Seq<Vec<Ty>>, w: Vec<Ty>)
    ensures
        size_of_variants(variants.push(w)) == size_of_variants(variants) + 1 + size_of_fields(w@),
{
    lemma_variants_size_split(variants.push(w), variants.len() as int);
    assert(variants.push(w).take(variants.len() as int) =~= variants);
    assert(variants.push(w).skip(variants.len() as int) =~= seq![w]);
    assert(seq![w].drop_first() =~= Seq::<Vec<Ty>>::empty());
    assert(seq![w][0] == w);
    assert(size_of_variants(Seq::<Vec<Ty>>::empty()) == 0);
    assert(size_of_variants(seq![w]) == 1 + size_of_fields(w@));
}

/// The fixed encoding size of a shape, computed at run time.
pub fn encoding_size(t: &Ty) -> (r: usize)
    requires
        size_of(*t) <= usize::MAX,
    ensures
        r == size_of(*t),
    decreases *t, 0nat,
{
    match t {
        Ty::Bool => 2,
        Ty::Unit => 0,
        Ty::Wrap(inner) => encoding_size(inner),
        Ty::Optional(inner) => 2 + encoding_size(inner),
        Ty::Array(elem, n) => {
            if *n == 0 {
                proof {
                    assert((*n as nat) * size_of(**elem) == 0);
                }
                0
            } else {
                proof {
                    assert(size_of(**elem) <= (*n as nat) * size_of(**elem)) by (nonlinear_arith)
                        requires
                            *n >= 1,
                    ;
                }
                let elem_size = encoding_size(elem);
                *n * elem_size
            }
        },
        Ty::Struct(fields) => {
            proof {
                assert(fields@.skip(0) =~= fields@);
            }
            fields_size_from(fields, 0)
        },
        Ty::Union(variants) => {
            proof {
                assert(variants@.skip(0) =~= variants@);
            }
            variants_size_from(variants, 0)
        },
    }
}

/// The summed size of the fields from position `i` on.
pub(crate) fn fields_size_from(fields: &Vec<Ty>, i: usize) -> (r: usize)
    requires
        i <= fields.len(),
        size_of_fields(fields@.skip(i as int)) <= usize::MAX,
    ensures
        r == size_of_fields(fields@.skip(i as int)),
    decreases fields@, fields@.len() - i,
{
    if i == fields.len() {
        proof {
            assert(fields@.skip(i as int) =~= Seq::<Ty>::empty());
        }
        0
    } else {
        proof {
            assert(fields@.skip(i as int).drop_first() =~= fields@.skip(i as int + 1));
            assert(fields@.skip(i as int)[0] == fields@[i as int]);
        }
        let head = encoding_size(&fields[i]);
        let tail = fields_size_from(fields, i + 1);
        head + tail
    }
}

/// The fixed encoding size of a shape, or `None` where it would not
/// fit the machine's address range.
pub fn try_encoding_size(t: &Ty) -> (r: Option<usize>)
    ensures
        r is Some <==> size_of(*t) <= usize::MAX,
        r is Some ==> r->0 == size_of(*t),
    decreases *t, 0nat,
{
    match t {
        Ty::Bool => Some(2),
        Ty::Unit => Some(0),
        Ty::Wrap(inner) => try_encoding_size(inner),
        Ty::Optional(inner) => match try_encoding_size(inner) {
            None => None,
            Some(s) => s.checked_add(2),
        },
        Ty::Array(elem, n) => {
            if *n == 0 {
                proof {
                    assert((*n as nat) * size_of(**elem) == 0);
                }
                Some(0)
            } else {
                proof {
                    assert(size_of(**elem) <= (*n as nat) * size_of(**elem)) by (nonlinear_arith)
                        requires
                            *n >= 1,
                    ;
                }
                match try_encoding_size(elem) {
                    None => None,
                    Some(s) => n.checked_mul(s),
                }
            }
        },
        Ty::Struct(fields) => {
            proof {
                assert(fields@.skip(0) =~= fields@);
            }
            try_fields_size(fields, 0)
        },
        Ty::Union(variants) => {
            proof {
                assert(variants@.skip(0) =~= variants@);
            }
            try_variants_size(variants, 0)
        },
    }
}

/// The summed size of the fields from position `i` on, or `None` where
/// it would not fit.
fn try_fields_size(fields: &Vec<Ty>, i: usize) -> (r: Option<usize>)
    requires
        i <= fields.len(),
    ensures
        r is Some <==> size_of_fields(fields@.skip(i as int)) <= usize::MAX,
        r is Some ==> r->0 == size_of_fields(fields@.skip(i as int)),
    decreases fields@, fields@.len() - i,
{
    if i == fields.len() {
        proof {
            assert(fields@.skip(i as int) =~= Seq::<Ty>::empty());
        }
        Some(0)
    } else {
        proof {
            assert(fields@.skip(i as int).drop_first() =~= fields@.skip(i as int + 1));
            assert(fields@.skip(i as int)[0] == fields@[i as int]);
        }
        match try_encoding_size(&fields[i]) {
            None => None,
            Some(s) => match try_fields_size(fields, i + 1) {
                None => None,
                Some(rest) => s.checked_add(rest),
            },
        }
    }
}

/// The summed tag-plus-payload size of the variants from position `j`
/// on, or `None` where it would not fit.
fn try_variants_size(variants: &Vec<Vec<Ty>>, j: usize) -> (r: Option<usize>)
    requires
        j <= variants.len(),
    ensures
        r is Some <==> size_of_variants(variants@.skip(j as int)) <= usize::MAX,
        r is Some ==> r->0 == size_of_variants(variants@.skip(j as int)),
    decreases variants@, variants@.len() - j,
{
    if j == variants.len() {
        proof {
            assert(variants@.skip(j as int) =~= Seq::<Vec<Ty>>::empty());
        }
        Some(0)
    } else {
        proof {
            assert(variants@.skip(j as int).drop_first() =~= variants@.skip(j as int + 1));
            assert(variants@.skip(j as int)[0] == variants@[j as int]);
            assert(variants@[j as int]@.skip(0) =~= variants@[j as int]@);
        }
        match try_fields_size(&variants[j], 0) {
            None => None,
            Some(payload) => match try_variants_size(variants, j + 1) {
                None => None,
                Some(rest) => match payload.checked_add(rest) {
                    None => None,
                    Some(both) => both.checked_add(1),
                },
            },
        }
    }
}

/// The summed tag-plus-payload size of the variants in `[i, j)`.
fn variants_size_range(variants: &Vec<Vec<Ty>>, i: usize, j: usize) -> (r: usize)
    requires
        i <= j <= variants.len(),
        size_of_variants(variants@.subrange(i as int, j as int)) <= usize::MAX,
    ensures
        r == size_of_variants(variants@.subrange(i as int, j as int)),
    decreases variants@, variants@.len() - i,
{
    if i == j {
        proof {
            assert(variants@.subrange(i as int, j as int) =~= Seq::<Vec<Ty>>::empty());
        }
        0
    } else {
        proof {
            assert(variants@.subrange(i as int, j as int).drop_first() =~= variants@.subrange(
                i as int + 1,
                j as int,
            ));
            assert(variants@.subrange(i as int, j as int)[0] == variants@[i as int]);
            assert(variants@[i as int]@.skip(0) =~= variants@[i as int]@);
        }
        let payload = fields_size_from(&variants[i], 0);
        let tail = variants_size_range(variants, i + 1, j);
        1 + payload + tail
    }
}

/// The offset of variant `j`'s sub-range, computed at run time.
pub fn variant_offset_to(variants: &Vec<Vec<Ty>>, j: usize) -> (r: usize)
    requires
        j <= variants.len(),
        size_of_variants(variants@) <= usize::MAX,
    ensures
        r == variant_offset(variants@, j as int),
{
    proof {
        lemma_variants_size_split(variants@, j as int);
        assert(variants@.take(j as int) =~= variants@.subrange(0, j as int));
    }
    variants_size_range(variants, 0, j)
}

/// The summed tag-plus-payload size of the variants from position `j` on.
fn variants_size_from(variants: &Vec<Vec<Ty>>, j: usize) -> (r: usize)
    requires
        j <= variants.len(),
        size_of_variants(variants@.skip(j as int)) <= usize::MAX,
    ensures
        r == size_of_variants(variants@.skip(j as int)),
    decreases variants@, variants@.len() - j,
{
    if j == variants.len() {
        proof {
            assert(variants@.skip(j as int) =~= Seq::<Vec<Ty>>::empty());
        }
        0
    } else {
        proof {
            assert(variants@.skip(j as int).drop_first() =~= variants@.skip(j as int + 1));
            assert(variants@.skip(j as int)[0] == variants@[j as int]);
            assert(variants@[j as int]@.skip(0) =~= variants@[j as int]@);
        }
        let payload = fields_size_from(&variants[j], 0);
        let tail = variants_size_from(variants, j + 1);
        1 + payload + tail
    }
}

} // verus!
