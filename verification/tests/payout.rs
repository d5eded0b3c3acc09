use blackjack_core::payout::{eval_payout, payout_amount, HandResult};

#[test]
fn payout_table_for_bet_100() {
    assert_eq!(payout_amount(100, HandResult::Win), Some(200));
    assert_eq!(payout_amount(100, HandResult::Push), Some(100));
    assert_eq!(payout_amount(100, HandResult::Lose), Some(0));
    assert_eq!(payout_amount(100, HandResult::Bj), Some(250));
    assert_eq!(payout_amount(100, HandResult::DoubleWin), Some(400));
    assert_eq!(payout_amount(100, HandResult::DoubleLose), Some(0));
    assert_eq!(payout_amount(100, HandResult::DoublePush), Some(200));
}

#[test]
fn payout_of_whole_game_sums_hands() {
    let bets = vec![100u128, 50, 25];
    let results = vec![HandResult::Win, HandResult::Push, HandResult::Bj];
    assert_eq!(eval_payout(&bets, &results), Some(200 + 50 + 62));
}

#[test]
fn payout_overflow_is_fatal_not_truncated() {
    assert_eq!(payout_amount(u128::MAX, HandResult::Win), None);
    assert_eq!(payout_amount(u128::MAX / 2, HandResult::Push), Some(u128::MAX / 2));
    let bets = vec![u128::MAX, 1];
    let results = vec![HandResult::Win, HandResult::Push];
    assert_eq!(eval_payout(&bets, &results), None);
    let bets2 = vec![u128::MAX, u128::MAX];
    let results2 = vec![HandResult::Push, HandResult::Push];
    assert_eq!(eval_payout(&bets2, &results2), None);
}
