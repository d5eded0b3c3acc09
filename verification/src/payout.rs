//! Payout resolver: terminal per-hand outcomes and their integer payouts.

use vstd::prelude::*;
use crate::hand::{best_sum, spec_blackjack};

verus! {

/// Terminal outcome of one player hand.
#[derive(Clone, Copy, PartialEq, Eq, Structural, Debug)]
pub enum HandResult {
    Bj,
    Win,
    Push,
    Lose,
    DoubleWin,
    DoubleLose,
    DoublePush,
}

/// The total return for a hand (stake included): a natural blackjack pays
/// 5/2 of the bet, a win pays double, a push returns the bet, a loss pays
/// nothing; doubled hands pay on the doubled stake.
pub open spec fn payout_of(bet: u128, r: HandResult) -> int {
    match r {
        HandResult::Bj => (bet * 5) / 2,
        HandResult::Win => bet * 2,
        HandResult::Push => bet as int,
        HandResult::Lose => 0,
        HandResult::DoubleWin => bet * 4,
        HandResult::DoubleLose => 0,
        HandResult::DoublePush => bet * 2,
    }
}

/// The checked-multiplication step of the payout fails for this bet and
/// outcome: the intermediate product does not fit the wager type.
pub open spec fn payout_overflows(bet: u128, r: HandResult) -> bool {
    match r {
        HandResult::Bj => bet * 5 > u128::MAX,
        HandResult::Win => bet * 2 > u128::MAX,
        HandResult::Push => false,
        HandResult::Lose => false,
        HandResult::DoubleWin => bet * 4 > u128::MAX,
        HandResult::DoubleLose => false,
        HandResult::DoublePush => bet * 2 > u128::MAX,
    }
}

/// The outcome of one hand against the dealer's final best sum, in the rule
/// order: natural blackjack, then bust, then dealer bust, then push, then
/// compare sums.
pub open spec fn score_hand(hand: Seq<u8>, doubled: bool, dealer_best: int) -> HandResult {
    if spec_blackjack(hand) {
        HandResult::Bj
    } else if best_sum(hand) > 21 {
        if doubled {
            HandResult::DoubleLose
        } else {
            HandResult::Lose
        }
    } else if dealer_best > 21 {
        if doubled {
            HandResult::DoubleWin
        } else {
            HandResult::Win
        }
    } else if dealer_best == best_sum(hand) {
        if doubled {
            HandResult::DoublePush
        } else {
            HandResult::Push
        }
    } else if dealer_best > best_sum(hand) {
        if doubled {
            HandResult::DoubleLose
        } else {
            HandResult::Lose
        }
    } else {
        if doubled {
            HandResult::DoubleWin
        } else {
            HandResult::Win
        }
    }
}

/// Payout of one hand, with overflow reported rather than truncated.
pub fn payout_amount(bet: u128, r: HandResult) -> (p: Option<u128>)
    ensures
        p is None <==> payout_overflows(bet, r),
        p matches Some(v) ==> v == payout_of(bet, r),
{
    match r {
        HandResult::Bj => {
            match bet.checked_mul(5) {
                Some(x) => Some(x / 2),
                None => None,
            }
        },
        HandResult::Win => bet.checked_mul(2),
        HandResult::Push => Some(bet),
        HandResult::Lose => Some(0),
        HandResult::DoubleWin => bet.checked_mul(4),
        HandResult::DoubleLose => Some(0),
        HandResult::DoublePush => bet.checked_mul(2),
    }
}

/// Sum of the per-hand payouts of parallel bet and result lists.
pub open spec fn total_payout(bets: Seq<u128>, results: Seq<HandResult>) -> int
    decreases bets.len(),
{
    if bets.len() == 0 {
        0
    } else {
        total_payout(bets.drop_last(), results.drop_last()) + payout_of(
            bets.last(),
            results.last(),
        )
    }
}

/// Some per-hand payout of the parallel lists overflows.
pub open spec fn some_payout_overflows(bets: Seq<u128>, results: Seq<HandResult>) -> bool {
    exists|i: int| 0 <= i < bets.len() && payout_overflows(bets[i], #[trigger] results[i])
}

pub proof fn lemma_total_payout_nonneg(bets: Seq<u128>, results: Seq<HandResult>)
    ensures
        total_payout(bets, results) >= 0,
    decreases bets.len(),
{
    if bets.len() > 0 {
        lemma_total_payout_nonneg(bets.drop_last(), results.drop_last());
    }
}

pub proof fn lemma_total_payout_take_succ(bets: Seq<u128>, results: Seq<HandResult>, i: int)
    requires
        0 <= i < bets.len(),
        bets.len() == results.len(),
    ensures
        total_payout(bets.take(i + 1), results.take(i + 1)) == total_payout(
            bets.take(i),
            results.take(i),
        ) + payout_of(bets[i], results[i]),
{
    assert(bets.take(i + 1).drop_last() =~= bets.take(i));
    assert(results.take(i + 1).drop_last() =~= results.take(i));
}

/// Total payout of a settled game: the per-hand payouts summed with checked
/// arithmetic. `None` exactly when a per-hand product or the running total
/// exceeds the wager type.
pub fn eval_payout(bets: &Vec<u128>, results: &Vec<HandResult>) -> (r: Option<u128>)
    requires
        bets@.len() == results@.len(),
    ensures
        r is None <==> (some_payout_overflows(bets@, results@) || total_payout(bets@, results@)
            > u128::MAX),
        r matches Some(v) ==> v == total_payout(bets@, results@),
{
    let mut acc: u128 = 0;
    let mut i: usize = 0;
    proof {
        assert(bets@.take(0) =~= Seq::<u128>::empty());
        assert(results@.take(0) =~= Seq::<HandResult>::empty());
    }
    while i < bets.len()
        invariant
            0 <= i <= bets@.len(),
            bets@.len() == results@.len(),
            acc == total_payout(bets@.take(i as int), results@.take(i as int)),
            forall|j: int| 0 <= j < i ==> !payout_overflows(bets@[j], #[trigger] results@[j]),
        decreases bets@.len() - i,
    {
        proof {
            lemma_total_payout_take_succ(bets@, results@, i as int);
        }
        let p = match payout_amount(bets[i], results[i]) {
            Some(p) => p,
            None => {
                return None;
            },
        };
        acc = match acc.checked_add(p) {
            Some(a) => a,
            None => {
                proof {
                    lemma_total_le_total_payout(bets@, results@, i as int + 1);
                }
                return None;
            },
        };
        i = i + 1;
    }
    proof {
        assert(bets@.take(bets@.len() as int) =~= bets@);
        assert(results@.take(results@.len() as int) =~= results@);
    }
    Some(acc)
}

/// A prefix of the payout total never exceeds the whole total.
pub proof fn lemma_total_le_total_payout(bets: Seq<u128>, results: Seq<HandResult>, i: int)
    requires
        0 <= i <= bets.len(),
        bets.len() == results.len(),
    ensures
        total_payout(bets.take(i), results.take(i)) <= total_payout(bets, results),
    decreases bets.len() - i,
{
    if i == bets.len() {
        assert(bets.take(i) =~= bets);
        assert(results.take(i) =~= results);
    } else {
        lemma_total_payout_take_succ(bets, results, i);
        assert(payout_of(bets[i], results[i]) >= 0);
        lemma_total_le_total_payout(bets, results, i + 1);
    }
}

} // verus!
