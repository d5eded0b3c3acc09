//! Hand value model: hard sum, soft-ace best sum, natural blackjack.

use vstd::prelude::*;

verus! {

/// Arithmetic sum of the ranks in a hand.
pub open spec fn hard_sum(h: Seq<u8>) -> int
    decreases h.len(),
{
    if h.len() == 0 {
        0
    } else {
        hard_sum(h.drop_last()) + h.last()
    }
}

/// The hand holds at least one card of rank `r`.
pub open spec fn has_rank(h: Seq<u8>, r: u8) -> bool {
    exists|i: int| 0 <= i < h.len() && h[i] == r
}

/// Best sum: one ace counts as 11 when that does not exceed 21.
pub open spec fn best_sum(h: Seq<u8>) -> int {
    if has_rank(h, 1) && hard_sum(h) + 10 <= 21 {
        hard_sum(h) + 10
    } else {
        hard_sum(h)
    }
}

/// A natural blackjack: exactly two cards, an ace and a ten-valued card.
pub open spec fn spec_blackjack(h: Seq<u8>) -> bool {
    h.len() == 2 && has_rank(h, 1) && has_rank(h, 10)
}

pub proof fn lemma_hard_sum_push(h: Seq<u8>, c: u8)
    ensures
        hard_sum(h.push(c)) == hard_sum(h) + c,
{
    assert(h.push(c).drop_last() =~= h);
}

/// A hand whose cards all have rank at least 1 has at least `len` points.
pub proof fn lemma_hard_sum_ge_len(h: Seq<u8>)
    requires
        forall|i: int| 0 <= i < h.len() ==> 1 <= #[trigger] h[i],
    ensures
        hard_sum(h) >= h.len(),
    decreases h.len(),
{
    if h.len() > 0 {
        lemma_hard_sum_ge_len(h.drop_last());
    }
}

pub proof fn lemma_hard_sum_take_succ(h: Seq<u8>, i: int)
    requires
        0 <= i < h.len(),
    ensures
        hard_sum(h.take(i + 1)) == hard_sum(h.take(i)) + h[i],
{
    assert(h.take(i + 1).drop_last() =~= h.take(i));
}

/// Hard sum of a hand, as executable code.
pub fn hand_hard_sum(h: &Vec<u8>) -> (s: u64)
    requires
        h@.len() <= 1000,
    ensures
        s == hard_sum(h@),
        s <= 255 * h@.len(),
{
    let mut s: u64 = 0;
    let mut i: usize = 0;
    proof {
        assert(h@.take(0) =~= Seq::<u8>::empty());
    }
    while i < h.len()
        invariant
            0 <= i <= h@.len(),
            h@.len() <= 1000,
            s == hard_sum(h@.take(i as int)),
            s <= 255 * i,
        decreases h@.len() - i,
    {
        proof {
            lemma_hard_sum_take_succ(h@, i as int);
        }
        s = s + h[i] as u64;
        i = i + 1;
    }
    proof {
        assert(h@.take(h@.len() as int) =~= h@);
    }
    s
}

/// Whether the hand holds a card of rank `r`.
pub fn hand_has_rank(h: &Vec<u8>, r: u8) -> (b: bool)
    ensures
        b == has_rank(h@, r),
{
    let mut i: usize = 0;
    while i < h.len()
        invariant
            0 <= i <= h@.len(),
            forall|j: int| 0 <= j < i ==> h@[j] != r,
        decreases h@.len() - i,
    {
        if h[i] == r {
            return true;
        }
        i = i + 1;
    }
    false
}

/// Best sum of a hand: the hard sum, plus 10 when the hand holds an ace and
/// counting it as 11 does not bust.
pub fn hand_best_sum(h: &Vec<u8>) -> (s: u64)
    requires
        h@.len() <= 1000,
    ensures
        s == best_sum(h@),
{
    let hard = hand_hard_sum(h);
    if hand_has_rank(h, 1) && hard + 10 <= 21 {
        hard + 10
    } else {
        hard
    }
}

/// Whether the hand is a natural blackjack: exactly two cards, one an ace
/// and one ten-valued.
pub fn is_blackjack(hand: &Vec<u8>) -> (r: bool)
    ensures
        r == spec_blackjack(hand@),
{
    hand.len() == 2 && hand_has_rank(hand, 1) && hand_has_rank(hand, 10)
}

/// A two-card hand is a natural blackjack exactly when one card is an ace and
/// the other is ten-valued: no other pair of ranks reaches it.
pub proof fn lemma_blackjack_characterization(h: Seq<u8>)
    requires
        h.len() == 2,
    ensures
        spec_blackjack(h) <==> ((h[0] == 1 && h[1] == 10) || (h[0] == 10 && h[1] == 1)),
{
}

} // verus!
