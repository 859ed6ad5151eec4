use encoding::codec::{encode, likelihood_slots};
use encoding::poker::{
    card_encoding, legal_moves, move_encoding, player_view_encoding, Card, Move, PlayerView,
};
use encoding::schema::{encoding_size, Ty};
use encoding::value::Val;

fn likelihood(t: &Ty, v: &Val, source: &[f64]) -> f64 {
    let mut p: f64 = 1.0;
    for i in likelihood_slots(t, v) {
        p *= source[i];
    }
    p
}

#[test]
fn raise_allowed_while_history_open() {
    let pv = PlayerView {
        hole_card: Card::A,
        history: [Some(Move::Call), Some(Move::Raise), None],
    };
    assert_eq!(legal_moves(&pv), vec![Move::Call, Move::Fold, Move::Raise]);
}

#[test]
fn raise_refused_after_three_bets() {
    let pv = PlayerView {
        hole_card: Card::Q,
        history: [Some(Move::Call), Some(Move::Raise), Some(Move::Raise)],
    };
    assert_eq!(legal_moves(&pv), vec![Move::Call, Move::Fold]);
}

#[test]
fn card_and_move_schemas() {
    let (card_t, card_v) = card_encoding(&Card::K);
    assert_eq!(encoding_size(&card_t), 3);
    assert_eq!(encode(&card_t, &card_v), vec![0u8, 1, 0]);
    let (move_t, move_v) = move_encoding(&Move::Fold);
    assert_eq!(encoding_size(&move_t), 3);
    assert_eq!(encode(&move_t, &move_v), vec![0u8, 0, 1]);
}

#[test]
fn move_likelihoods_under_predicted_distribution() {
    let predicted = [0.7, 0.8, 0.2];
    let (t, call) = move_encoding(&Move::Call);
    assert_eq!(likelihood(&t, &call, &predicted), 0.7);
    let (t, raise) = move_encoding(&Move::Raise);
    assert_eq!(likelihood(&t, &raise, &predicted), 0.8);
    let (t, fold) = move_encoding(&Move::Fold);
    assert_eq!(likelihood(&t, &fold, &predicted), 0.2);
}

#[test]
fn player_view_encodes_to_eighteen_slots() {
    let pv = PlayerView {
        hole_card: Card::A,
        history: [Some(Move::Call), Some(Move::Raise), None],
    };
    let (t, v) = player_view_encoding(&pv);
    assert_eq!(encoding_size(&t), 18);
    let expected = vec![
        1u8, 0, 0, // hole card: ace
        0, 1, 1, 0, 0, // first move made, a call
        0, 1, 0, 1, 0, // second move made, a raise
        1, 0, 0, 0, 0, // no third move
    ];
    assert_eq!(encode(&t, &v), expected);
}

#[test]
fn fresh_game_view() {
    let pv = PlayerView {
        hole_card: Card::K,
        history: [None, None, None],
    };
    assert_eq!(legal_moves(&pv), vec![Move::Call, Move::Fold, Move::Raise]);
    let (t, v) = player_view_encoding(&pv);
    let expected = vec![
        0u8, 1, 0, // hole card: king
        1, 0, 0, 0, 0, // no first move
        1, 0, 0, 0, 0, // no second move
        1, 0, 0, 0, 0, // no third move
    ];
    assert_eq!(encode(&t, &v), expected);
}

#[test]
fn player_view_round_trip_likelihood() {
    let pv = PlayerView {
        hole_card: Card::Q,
        history: [Some(Move::Fold), None, None],
    };
    let (t, v) = player_view_encoding(&pv);
    let enc = encode(&t, &v);
    let params: Vec<f64> = enc.iter().map(|&b| b as f64).collect();
    assert_eq!(likelihood(&t, &v, &params), 1.0);
}
