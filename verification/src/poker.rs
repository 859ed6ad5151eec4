//! A worked example of the codec: a three-card limit poker state.
//!
//! There are three cards, ranked `A > K > Q`, and at most three
//! betting moves per game.  A player's view of a game — their hole
//! card and the betting history — is given a schema under the codec,
//! so that views can be encoded as flat one-hot buffers and scored
//! against predicted move distributions.

use vstd::prelude::*;
use crate::schema::{Ty, size_of, size_of_fields, size_of_variants, lemma_fields_size_push,
    lemma_variants_size_push};
use crate::value::{Val, conforms, conforms_fields, conforms_elems};

verus! {

/// The three cards, ranked `A > K > Q`.
#[derive(Debug, Clone, Copy, PartialEq, Eq, Structural)]
pub enum Card {
    A,
    K,
    Q,
}

/// The three betting moves.
#[derive(Debug, Clone, Copy, PartialEq, Eq, Structural)]
pub enum Move {
    Call,
    Raise,
    Fold,
}

/// One player's view of a game: their hole card and up to three past
/// moves, oldest first.
#[derive(Debug)]
pub struct PlayerView {
    pub hole_card: Card,
    pub history: [Option<Move>; 3],
}

/// The variant index of a card in its schema.
pub open spec fn card_index(c: Card) -> int {
    match c {
        Card::A => 0,
        Card::K => 1,
        Card::Q => 2,
    }
}

/// The variant index of a move in its schema.
pub open spec fn move_index(m: Move) -> int {
    match m {
        Move::Call => 0,
        Move::Raise => 1,
        Move::Fold => 2,
    }
}

/// Whether `v` is the codec value of move `m`.
pub open spec fn is_move_val(v: Val, m: Move) -> bool {
    &&& v is Case
    &&& v->Case_0 as int == move_index(m)
    &&& v->Case_1@.len() == 0
}

/// Whether `v` is the codec value of one history slot.
pub open spec fn is_opt_move_val(v: Val, m: Option<Move>) -> bool {
    match m {
        None => v is Absent,
        Some(mv) => v is Present && is_move_val(*v->Present_0, mv),
    }
}

/// The moves a player may legally make: calling and folding always,
/// raising only while fewer than three bets have been made.
pub fn legal_moves(pv: &PlayerView) -> (r: Vec<Move>)
    ensures
        r@ == (if pv.history[2] is None {
            seq![Move::Call, Move::Fold, Move::Raise]
        } else {
            seq![Move::Call, Move::Fold]
        }),
{
    let mut v: Vec<Move> = Vec::new();
    v.push(Move::Call);
    v.push(Move::Fold);
    match pv.history[2] {
        None => {
            v.push(Move::Raise);
            proof {
                assert(v@ =~= seq![Move::Call, Move::Fold, Move::Raise]);
            }
        },
        Some(_) => {
            proof {
                assert(v@ =~= seq![Move::Call, Move::Fold]);
            }
        },
    }
    v
}

/// The schema of a plain enumeration of `n` alternatives: a tagged
/// union of `n` variants, each without fields, one tag slot apiece.
pub fn enum_schema(n: usize) -> (t: Ty)
    ensures
        t is Union,
        t->Union_0@.len() == n,
        forall|j: int| 0 <= j < n ==> (#[trigger] t->Union_0@[j])@.len() == 0,
        size_of(t) == n,
{
    let mut variants: Vec<Vec<Ty>> = Vec::new();
    while variants.len() < n
        invariant
            variants@.len() <= n,
            forall|j: int| 0 <= j < variants@.len() ==> (#[trigger] variants@[j])@.len() == 0,
            size_of_variants(variants@) == variants@.len(),
        decreases n - variants.len(),
    {
        let w: Vec<Ty> = Vec::new();
        proof {
            lemma_variants_size_push(variants@, w);
        }
        variants.push(w);
    }
    Ty::Union(variants)
}

/// A card's schema and its value in it: one of three tag slots.
pub fn card_encoding(c: &Card) -> (r: (Ty, Val))
    ensures
        conforms(r.0, r.1),
        size_of(r.0) == 3,
        r.0 is Union,
        r.0->Union_0@.len() == 3,
        forall|j: int| 0 <= j < 3 ==> (#[trigger] r.0->Union_0@[j])@.len() == 0,
        r.1 is Case,
        r.1->Case_0 as int == card_index(*c),
        r.1->Case_1@.len() == 0,
{
    let t = enum_schema(3);
    let j: usize = match c {
        Card::A => 0,
        Card::K => 1,
        Card::Q => 2,
    };
    let flds: Vec<Val> = Vec::new();
    let v = Val::Case(j, flds);
    proof {
        assert(conforms_fields(t->Union_0@[j as int]@, v->Case_1@));
    }
    (t, v)
}

/// A move's schema and its value in it: one of three tag slots.
pub fn move_encoding(m: &Move) -> (r: (Ty, Val))
    ensures
        conforms(r.0, r.1),
        size_of(r.0) == 3,
        r.0 is Union,
        r.0->Union_0@.len() == 3,
        forall|j: int| 0 <= j < 3 ==> (#[trigger] r.0->Union_0@[j])@.len() == 0,
        r.1 is Case,
        r.1->Case_0 as int == move_index(*m),
        r.1->Case_1@.len() == 0,
{
    let t = enum_schema(3);
    let j: usize = match m {
        Move::Call => 0,
        Move::Raise => 1,
        Move::Fold => 2,
    };
    let flds: Vec<Val> = Vec::new();
    let v = Val::Case(j, flds);
    proof {
        assert(conforms_fields(t->Union_0@[j as int]@, v->Case_1@));
    }
    (t, v)
}

/// The value standing for one history slot.
fn opt_move_value(m: &Option<Move>) -> (v: Val)
    ensures
        is_opt_move_val(v, *m),
{
    match m {
        None => Val::Absent,
        Some(mv) => {
            let j: usize = match mv {
                Move::Call => 0,
                Move::Raise => 1,
                Move::Fold => 2,
            };
            let flds: Vec<Val> = Vec::new();
            Val::Present(Box::new(Val::Case(j, flds)))
        },
    }
}

/// A history slot value conforms to the optional-move schema.
proof fn lemma_opt_move_conforms(t: Ty, v: Val, m: Option<Move>)
    requires
        t is Optional,
        *t->Optional_0 is Union,
        (*t->Optional_0)->Union_0@.len() == 3,
        forall|j: int| 0 <= j < 3 ==> (#[trigger] (*t->Optional_0)->Union_0@[j])@.len() == 0,
        is_opt_move_val(v, m),
    ensures
        conforms(t, v),
{
    match m {
        None => {},
        Some(mv) => {
            let inner = *v->Present_0;
            let jj = inner->Case_0 as int;
            assert(0 <= jj < 3);
            assert((*t->Optional_0)->Union_0@[jj]@.len() == 0);
            assert(conforms_fields((*t->Optional_0)->Union_0@[jj]@, inner->Case_1@));
            assert(conforms(*t->Optional_0, inner));
        },
    }
}

/// A player view's schema and its value in it: the hole card, then
/// the three history slots.  Eighteen slots in all: three for the
/// card and five for each optional move.
pub fn player_view_encoding(pv: &PlayerView) -> (r: (Ty, Val))
    ensures
        conforms(r.0, r.1),
        size_of(r.0) == 18,
        r.0 is Struct,
        r.0->Struct_0@.len() == 2,
        r.1 is Fields,
        r.1->Fields_0@.len() == 2,
        r.1->Fields_0@[0] is Case,
        r.1->Fields_0@[0]->Case_0 as int == card_index(pv.hole_card),
        r.1->Fields_0@[0]->Case_1@.len() == 0,
        r.1->Fields_0@[1] is Fields,
        r.1->Fields_0@[1]->Fields_0@.len() == 3,
        forall|i: int|
            0 <= i < 3 ==> is_opt_move_val(
                #[trigger] r.1->Fields_0@[1]->Fields_0@[i],
                pv.history[i],
            ),
{
    let (card_t, card_v) = card_encoding(&pv.hole_card);

    let move_t = enum_schema(3);
    let opt_t = Ty::Optional(Box::new(move_t));
    let ghost opt_t_ghost = opt_t;
    let arr_t = Ty::Array(Box::new(opt_t), 3);

    let mut hist: Vec<Val> = Vec::new();
    hist.push(opt_move_value(&pv.history[0]));
    hist.push(opt_move_value(&pv.history[1]));
    hist.push(opt_move_value(&pv.history[2]));

    let mut fields: Vec<Ty> = Vec::new();
    fields.push(card_t);
    fields.push(arr_t);

    let mut vals: Vec<Val> = Vec::new();
    vals.push(card_v);
    vals.push(Val::Fields(hist));

    let t = Ty::Struct(fields);
    let v = Val::Fields(vals);
    proof {
        let hist_s = vals@[1]->Fields_0@;
        assert(hist_s.len() == 3);
        lemma_opt_move_conforms(opt_t_ghost, hist_s[0], pv.history[0]);
        lemma_opt_move_conforms(opt_t_ghost, hist_s[1], pv.history[1]);
        lemma_opt_move_conforms(opt_t_ghost, hist_s[2], pv.history[2]);
        assert(hist_s.drop_first() =~= seq![hist_s[1], hist_s[2]]);
        assert(hist_s.drop_first().drop_first() =~= seq![hist_s[2]]);
        assert(seq![hist_s[2]].drop_first() =~= Seq::<Val>::empty());
        assert(conforms_elems(opt_t_ghost, Seq::<Val>::empty()));
        assert(conforms_elems(opt_t_ghost, seq![hist_s[2]]));
        assert(conforms_elems(opt_t_ghost, hist_s.drop_first()));
        assert(conforms_elems(opt_t_ghost, hist_s));
        assert(conforms(arr_t, vals@[1]));

        assert(fields@ =~= seq![card_t, arr_t]);
        assert(vals@ =~= seq![card_v, Val::Fields(hist)]);
        assert(fields@.drop_first() =~= seq![arr_t]);
        assert(vals@.drop_first() =~= seq![Val::Fields(hist)]);
        assert(seq![arr_t].drop_first() =~= Seq::<Ty>::empty());
        assert(seq![Val::Fields(hist)].drop_first() =~= Seq::<Val>::empty());
        assert(conforms_fields(Seq::<Ty>::empty(), Seq::<Val>::empty()));
        assert(conforms_fields(seq![arr_t], seq![Val::Fields(hist)]));
        assert(conforms_fields(fields@, vals@));

        assert(size_of(opt_t_ghost) == 5);
        assert(size_of(arr_t) == 15);
        lemma_fields_size_push(Seq::<Ty>::empty(), card_t);
        lemma_fields_size_push(seq![card_t], arr_t);
        assert(Seq::<Ty>::empty().push(card_t) =~= seq![card_t]);
        assert(seq![card_t].push(arr_t) =~= fields@);
        assert(size_of_fields(Seq::<Ty>::empty()) == 0);
        assert(size_of(t) == 18);
    }
    (t, v)
}

} // verus!
