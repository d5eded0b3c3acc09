//! The game state machine shared by the interactive service and the batch
//! verifier.
//!
//! One pure rules engine — deal, validate an action, apply it, resolve the
//! dealer, score — drives both replicas, so the online run and the offline
//! replay cannot drift apart. Every accepted action is validated and applied
//! atomically: a rejected action leaves the game exactly as it was.

use vstd::prelude::*;
use crate::cards::{card_at, CardSource};
use crate::hand::{
    best_sum, hand_best_sum, hand_hard_sum, hard_sum, is_blackjack, lemma_hard_sum_ge_len,
    lemma_hard_sum_push, spec_blackjack,
};
use crate::payout::{
    payout_of, payout_overflows, score_hand, HandResult,
};
use crate::wire::{
    action_wire, kind_of, Action, ActionType, ActionV, WireAction, WireActionV,
};
use crate::crypto::sig_ok;

verus! {

/// Why a submission was refused, or why an operation had to stop.
#[derive(Clone, Copy, PartialEq, Eq, Structural, Debug)]
pub enum Error {
    /// The action is illegal in the current state: the game is over, or the
    /// hand's shape does not admit the action.
    InvalidAction,
    /// The action names the wrong hand, or its observed cards are stale.
    UnexpectedHand,
    /// The signature does not verify against the registered key.
    BadSignature,
    /// The nonce is not the count of previously accepted actions.
    BadNonce,
    /// A wager computation exceeded the wager type.
    Overflow,
    /// Structurally malformed input: an unmapped action kind, or parallel
    /// input lists of different lengths.
    Malformed,
}

/// Mathematical state of one game.
#[verifier::ext_equal]
pub struct GameState {
    pub dealer: Seq<u8>,
    pub hands: Seq<Seq<u8>>,
    pub active: Seq<bool>,
    pub bets: Seq<u128>,
    pub base_bets: Seq<u128>,
    pub winnings: Seq<u128>,
    pub results: Seq<HandResult>,
    pub doubles: Seq<u8>,
    pub splits: Seq<u8>,
    pub focus: int,
    pub pos: int,
}

/// Every card of the sequence is a rank in `[1, 10]`.
pub open spec fn card_seq_ok(h: Seq<u8>) -> bool {
    forall|i: int| 0 <= i < h.len() ==> 1 <= #[trigger] h[i] <= 10
}

/// No hand is still awaiting play.
pub open spec fn all_inactive(active: Seq<bool>) -> bool {
    forall|i: int| 0 <= i < active.len() ==> !(#[trigger] active[i])
}

/// The first index at or after `i` whose hand is still active (or the length
/// if none is).
pub open spec fn next_focus(active: Seq<bool>, i: int) -> int
    decreases active.len() - i,
{
    if i < 0 || i >= active.len() {
        i
    } else if active[i] {
        i
    } else {
        next_focus(active, i + 1)
    }
}

/// Total number of cards across the player hands.
pub open spec fn total_len(hs: Seq<Seq<u8>>) -> int
    decreases hs.len(),
{
    if hs.len() == 0 {
        0
    } else {
        total_len(hs.drop_last()) + hs.last().len()
    }
}

/// Views of the player hands.
pub open spec fn hands_deep(hs: Seq<Vec<u8>>) -> Seq<Seq<u8>> {
    hs.map_values(|h: Vec<u8>| h@)
}

/// `d` is what dealer resolution makes of `d0`: `d0` extended with the cards
/// the source yields from position `p0` on, stopping at the first best sum of
/// 17 or more — and never drawing at all when the best sum, soft totals
/// included, already reaches 17.
pub open spec fn dealer_resolved(d0: Seq<u8>, seed: Seq<u8>, p0: int, d: Seq<u8>, p1: int) -> bool {
    &&& d0.is_prefix_of(d)
    &&& p1 == p0 + d.len() - d0.len()
    &&& forall|k: int| d0.len() <= k < d.len() ==> d[k] == card_at(seed, p0 + k - d0.len())
    &&& best_sum(d) >= 17
    &&& forall|j: int| d0.len() <= j < d.len() ==> best_sum(d.take(j)) < 17
}

/// Dealer resolution is a function: two sequences that both satisfy
/// [`dealer_resolved`] for the same start are the same sequence. This is what
/// makes the interactive run and the offline replay reach the same dealer
/// hand from the same seed.
pub proof fn lemma_dealer_resolved_unique(
    d0: Seq<u8>,
    seed: Seq<u8>,
    p0: int,
    d1: Seq<u8>,
    p1: int,
    d2: Seq<u8>,
    p2: int,
)
    requires
        dealer_resolved(d0, seed, p0, d1, p1),
        dealer_resolved(d0, seed, p0, d2, p2),
    ensures
        d1 == d2,
        p1 == p2,
{
    if d1.len() < d2.len() {
        assert(d2.take(d1.len() as int) =~= d1);
        assert(best_sum(d2.take(d1.len() as int)) < 17);
        assert(false);
    } else if d2.len() < d1.len() {
        assert(d1.take(d2.len() as int) =~= d2);
        assert(best_sum(d1.take(d2.len() as int)) < 17);
        assert(false);
    } else {
        assert forall|k: int| 0 <= k < d1.len() implies d1[k] == d2[k] by {
            if k < d0.len() {
                assert(d1[k] == d0[k]);
                assert(d2[k] == d0[k]);
            }
        }
        assert(d1 =~= d2);
    }
}

/// Each hand scored against a dealer best sum, at its doubled status.
pub open spec fn scored_results_c(hands: Seq<Seq<u8>>, doubles: Seq<u8>, dealer_best: int) -> Seq<
    HandResult,
> {
    Seq::new(hands.len(), |i: int| score_hand(hands[i], doubles.contains(i as u8), dealer_best))
}

/// The per-hand outcomes of a finished game: each hand scored against the
/// dealer's best sum, at its doubled status.
pub open spec fn scored_results(s: GameState) -> Seq<HandResult> {
    scored_results_c(s.hands, s.doubles, best_sum(s.dealer))
}

/// Some hand's payout does not fit the wager type.
pub open spec fn scoring_overflows_c(
    hands: Seq<Seq<u8>>,
    doubles: Seq<u8>,
    base_bets: Seq<u128>,
    dealer_best: int,
) -> bool {
    exists|i: int|
        0 <= i < hands.len() && payout_overflows(
            base_bets[i],
            #[trigger] scored_results_c(hands, doubles, dealer_best)[i],
        )
}

/// Some hand's payout does not fit the wager type.
pub open spec fn scoring_overflows(s: GameState) -> bool {
    scoring_overflows_c(s.hands, s.doubles, s.base_bets, best_sum(s.dealer))
}

/// The state with results and winnings settled from the hands, the doubles
/// and the dealer's best sum.
pub open spec fn finalized(s: GameState) -> GameState {
    GameState {
        results: scored_results(s),
        winnings: Seq::new(
            s.hands.len(),
            |i: int| payout_of(s.base_bets[i], scored_results(s)[i]) as u128,
        ),
        ..s
    }
}

/// The validation verdict on an action: `None` when it is legal in this
/// state, otherwise the rejection it draws. Checks run in a fixed order:
/// a finished game, then the focused hand, then the observed cards, then the
/// legality of the kind for the hand's shape.
pub open spec fn validate(s: GameState, a: ActionV) -> Option<Error> {
    if all_inactive(s.active) {
        Some(Error::InvalidAction)
    } else {
        let f = next_focus(s.active, s.focus);
        if a.hand_id as int != f {
            Some(Error::UnexpectedHand)
        } else if a.my_cards != s.hands[f] {
            Some(Error::UnexpectedHand)
        } else if a.dealer_cards != s.dealer {
            Some(Error::UnexpectedHand)
        } else {
            match a.inner {
                ActionType::Hit => if hard_sum(s.hands[f]) > 21 {
                    Some(Error::InvalidAction)
                } else {
                    None
                },
                ActionType::Stand => None,
                ActionType::Double => if s.hands[f].len() != 2 {
                    Some(Error::InvalidAction)
                } else if s.bets[f] > u128::MAX / 2 {
                    Some(Error::Overflow)
                } else {
                    None
                },
                ActionType::Split => if s.hands[f].len() != 2 || s.hands.len() >= 4
                    || s.hands[f][0] != s.hands[f][1] {
                    Some(Error::InvalidAction)
                } else {
                    None
                },
            }
        }
    }
}

/// The state after a legal action is applied (before any dealer resolution):
/// hit draws one card and busts out at a hard sum over 21; stand retires the
/// hand; double draws exactly one card, doubles the bet and retires the hand;
/// split inserts a new one-card hand after the focused one, duplicates its
/// bet, and redraws the focused hand's second card, keeping the focus.
pub open spec fn apply_action(seed: Seq<u8>, s: GameState, a: ActionV) -> GameState {
    let f = next_focus(s.active, s.focus);
    match a.inner {
        ActionType::Hit => {
            let h = s.hands[f].push(card_at(seed, s.pos));
            GameState {
                hands: s.hands.update(f, h),
                active: if hard_sum(h) > 21 {
                    s.active.update(f, false)
                } else {
                    s.active
                },
                focus: if hard_sum(h) > 21 {
                    f + 1
                } else {
                    f
                },
                pos: s.pos + 1,
                ..s
            }
        },
        ActionType::Stand => GameState { active: s.active.update(f, false), focus: f + 1, ..s },
        ActionType::Double => GameState {
            hands: s.hands.update(f, s.hands[f].push(card_at(seed, s.pos))),
            active: s.active.update(f, false),
            bets: s.bets.update(f, (2 * s.bets[f]) as u128),
            doubles: s.doubles.push(f as u8),
            focus: f + 1,
            pos: s.pos + 1,
            ..s
        },
        ActionType::Split => GameState {
            hands: s.hands.update(f, seq![s.hands[f][0], card_at(seed, s.pos)]).insert(
                f + 1,
                seq![s.hands[f][1]],
            ),
            active: s.active.insert(f + 1, true),
            bets: s.bets.insert(f + 1, s.bets[f]),
            base_bets: s.base_bets.insert(f + 1, s.base_bets[f]),
            winnings: s.winnings.insert(f + 1, 0u128),
            splits: s.splits.push(f as u8),
            focus: f,
            pos: s.pos + 1,
            ..s
        },
    }
}

/// The full effect of submitting one action to the rules engine: a rejected
/// action leaves the state untouched and reports why; an accepted action
/// yields the applied state, and when it retires the last active hand the
/// dealer is resolved and every hand is scored and paid. A wager that
/// overflows during settlement stops the action with `Overflow` and leaves
/// the state untouched.
pub open spec fn step_spec(
    seed: Seq<u8>,
    pre: GameState,
    a: ActionV,
    post: GameState,
    r: Result<(), Error>,
) -> bool {
    match validate(pre, a) {
        Some(e) => r == Err::<(), Error>(e) && post == pre,
        None => {
            let mid = apply_action(seed, pre, a);
            if !all_inactive(mid.active) {
                r == Ok::<(), Error>(()) && post == mid
            } else if exists|d: Seq<u8>, p: int|
                dealer_resolved(mid.dealer, seed, mid.pos, d, p) && scoring_overflows(
                    GameState { dealer: d, ..mid },
                ) {
                r == Err::<(), Error>(Error::Overflow) && post == pre
            } else {
                &&& r == Ok::<(), Error>(())
                &&& dealer_resolved(mid.dealer, seed, mid.pos, post.dealer, post.pos)
                &&& post == finalized(GameState { dealer: post.dealer, pos: post.pos, ..mid })
            }
        },
    }
}

pub proof fn lemma_total_len_update(hs: Seq<Seq<u8>>, i: int, h: Seq<u8>)
    requires
        0 <= i < hs.len(),
    ensures
        total_len(hs.update(i, h)) == total_len(hs) + h.len() - hs[i].len(),
    decreases hs.len(),
{
    if i == hs.len() - 1 {
        assert(hs.update(i, h).drop_last() =~= hs.drop_last());
    } else {
        assert(hs.update(i, h).drop_last() =~= hs.drop_last().update(i, h));
        lemma_total_len_update(hs.drop_last(), i, h);
    }
}

pub proof fn lemma_total_len_insert(hs: Seq<Seq<u8>>, i: int, h: Seq<u8>)
    requires
        0 <= i <= hs.len(),
    ensures
        total_len(hs.insert(i, h)) == total_len(hs) + h.len(),
    decreases hs.len(),
{
    if i == hs.len() {
        assert(hs.insert(i, h).drop_last() =~= hs);
    } else {
        assert(hs.insert(i, h).drop_last() =~= hs.drop_last().insert(i, h));
        lemma_total_len_insert(hs.drop_last(), i, h);
    }
}

pub proof fn lemma_total_len_bound(hs: Seq<Seq<u8>>, cap: int)
    requires
        forall|i: int| 0 <= i < hs.len() ==> (#[trigger] hs[i]).len() <= cap,
        cap >= 0,
    ensures
        total_len(hs) <= hs.len() * cap,
    decreases hs.len(),
{
    if hs.len() > 0 {
        lemma_total_len_bound(hs.drop_last(), cap);
        assert(total_len(hs) <= (hs.len() - 1) * cap + cap) by (nonlinear_arith)
            requires
                total_len(hs.drop_last()) <= (hs.len() - 1) * cap,
                hs.last().len() <= cap,
                total_len(hs) == total_len(hs.drop_last()) + hs.last().len(),
        ;
        assert((hs.len() - 1) * cap + cap == hs.len() * cap) by (nonlinear_arith);
    }
}

/// Equality of two byte vectors.
fn vec_eq_u8(a: &Vec<u8>, b: &Vec<u8>) -> (r: bool)
    ensures
        r == (a@ == b@),
{
    if a.len() != b.len() {
        proof {
            assert(a@.len() != b@.len());
        }
        return false;
    }
    let mut i: usize = 0;
    while i < a.len()
        invariant
            0 <= i <= a@.len(),
            a@.len() == b@.len(),
            forall|j: int| 0 <= j < i ==> a@[j] == b@[j],
        decreases a@.len() - i,
    {
        if a[i] != b[i] {
            return false;
        }
        i = i + 1;
    }
    proof {
        assert(a@ =~= b@);
    }
    true
}

/// Whether the list holds the byte `x`.
fn contains_u8(v: &Vec<u8>, x: u8) -> (r: bool)
    ensures
        r == v@.contains(x),
{
    let mut i: usize = 0;
    while i < v.len()
        invariant
            0 <= i <= v@.len(),
            forall|j: int| 0 <= j < i ==> v@[j] != x,
        decreases v@.len() - i,
    {
        if v[i] == x {
            return true;
        }
        i = i + 1;
    }
    false
}

/// Copy of a vector of copyable values.
pub(crate) fn copy_vec<T: Copy>(v: &Vec<T>) -> (r: Vec<T>)
    ensures
        r@ == v@,
{
    let mut r: Vec<T> = Vec::new();
    let mut i: usize = 0;
    while i < v.len()
        invariant
            0 <= i <= v@.len(),
            r@ =~= v@.take(i as int),
        decreases v@.len() - i,
    {
        r.push(v[i]);
        proof {
            assert(v@.take(i + 1) =~= v@.take(i as int).push(v@[i as int]));
        }
        i = i + 1;
    }
    proof {
        assert(v@.take(v@.len() as int) =~= v@);
    }
    r
}

/// Copy of the player hands.
fn copy_hands(v: &Vec<Vec<u8>>) -> (r: Vec<Vec<u8>>)
    ensures
        hands_deep(r@) == hands_deep(v@),
        r@.len() == v@.len(),
{
    let mut r: Vec<Vec<u8>> = Vec::new();
    let mut i: usize = 0;
    while i < v.len()
        invariant
            0 <= i <= v@.len(),
            r@.len() == i,
            forall|j: int| 0 <= j < i ==> (#[trigger] r@[j])@ == v@[j]@,
        decreases v@.len() - i,
    {
        r.push(crate::wire::copy_bytes(&v[i]));
        i = i + 1;
    }
    proof {
        assert(hands_deep(r@) =~~= hands_deep(v@));
    }
    r
}

/// Whether every hand is retired.
fn all_inactive_exec(v: &Vec<bool>) -> (r: bool)
    ensures
        r == all_inactive(v@),
{
    let mut i: usize = 0;
    while i < v.len()
        invariant
            0 <= i <= v@.len(),
            forall|j: int| 0 <= j < i ==> !(#[trigger] v@[j]),
        decreases v@.len() - i,
    {
        if v[i] {
            return false;
        }
        i = i + 1;
    }
    true
}

/// Score one hand against the dealer's final best sum.
fn score_one(hand: &Vec<u8>, doubled: bool, dealer_best: u64) -> (r: HandResult)
    requires
        hand@.len() <= 1000,
    ensures
        r == score_hand(hand@, doubled, dealer_best as int),
{
    if is_blackjack(hand) {
        HandResult::Bj
    } else {
        let best = hand_best_sum(hand);
        if best > 21 {
            if doubled {
                HandResult::DoubleLose
            } else {
                HandResult::Lose
            }
        } else if dealer_best > 21 {
            if doubled {
                HandResult::DoubleWin
            } else {
                HandResult::Win
            }
        } else if dealer_best == best {
            if doubled {
                HandResult::DoublePush
            } else {
                HandResult::Push
            }
        } else if dealer_best > best {
            if doubled {
                HandResult::DoubleLose
            } else {
                HandResult::Lose
            }
        } else {
            if doubled {
                HandResult::DoubleWin
            } else {
                HandResult::Win
            }
        }
    }
}

/// Score and pay every hand; `None` exactly when some payout overflows.
fn score_all(
    hands: &Vec<Vec<u8>>,
    base_bets: &Vec<u128>,
    doubles: &Vec<u8>,
    dealer_best: u64,
) -> (r: Option<(Vec<HandResult>, Vec<u128>)>)
    requires
        hands@.len() == base_bets@.len(),
        hands@.len() <= 255,
        forall|i: int| 0 <= i < hands@.len() ==> (#[trigger] hands@[i])@.len() <= 1000,
    ensures
        ({
            let res = scored_results_c(hands_deep(hands@), doubles@, dealer_best as int);
            match r {
                Some((results, winnings)) => {
                    &&& results@ == res
                    &&& winnings@.len() == hands@.len()
                    &&& forall|i: int|
                        0 <= i < hands@.len() ==> #[trigger] winnings@[i] == payout_of(
                            base_bets@[i],
                            res[i],
                        )
                    &&& !scoring_overflows_c(
                        hands_deep(hands@),
                        doubles@,
                        base_bets@,
                        dealer_best as int,
                    )
                },
                None => scoring_overflows_c(
                    hands_deep(hands@),
                    doubles@,
                    base_bets@,
                    dealer_best as int,
                ),
            }
        }),
{
    let ghost res = scored_results_c(hands_deep(hands@), doubles@, dealer_best as int);
    let mut results: Vec<HandResult> = Vec::new();
    let mut winnings: Vec<u128> = Vec::new();
    let mut i: usize = 0;
    while i < hands.len()
        invariant
            0 <= i <= hands@.len(),
            hands@.len() == base_bets@.len(),
            hands@.len() <= 255,
            forall|k: int| 0 <= k < hands@.len() ==> (#[trigger] hands@[k])@.len() <= 1000,
            res == scored_results_c(hands_deep(hands@), doubles@, dealer_best as int),
            results@.len() == i,
            winnings@.len() == i,
            forall|k: int| 0 <= k < i ==> #[trigger] results@[k] == res[k],
            forall|k: int|
                0 <= k < i ==> #[trigger] winnings@[k] == payout_of(base_bets@[k], res[k]),
            forall|k: int|
                0 <= k < i ==> !payout_overflows(base_bets@[k], #[trigger] res[k]),
        decreases hands@.len() - i,
    {
        let doubled = contains_u8(doubles, i as u8);
        let sc = score_one(&hands[i], doubled, dealer_best);
        proof {
            assert(hands_deep(hands@)[i as int] == hands@[i as int]@);
            assert(res[i as int] == score_hand(
                hands@[i as int]@,
                doubles@.contains((i as int) as u8),
                dealer_best as int,
            ));
        }
        let pay = match crate::payout::payout_amount(base_bets[i], sc) {
            Some(p) => p,
            None => {
                proof {
                    assert(payout_overflows(
                        base_bets@[i as int],
                        scored_results_c(hands_deep(hands@), doubles@, dealer_best as int)[i as int],
                    ));
                }
                return None;
            },
        };
        results.push(sc);
        winnings.push(pay);
        i = i + 1;
    }
    proof {
        assert(results@ =~= res);
    }
    Some((results, winnings))
}

/// Draw cards into the dealer hand until its best sum reaches 17, standing on
/// soft totals.
fn resolve_dealer(dealer: &mut Vec<u8>, src: &mut CardSource)
    requires
        card_seq_ok(old(dealer)@),
        hard_sum(old(dealer)@) <= 26,
        old(src).pos <= 100000,
    ensures
        final(src).dealer_seed == old(src).dealer_seed,
        final(src).player_seed == old(src).player_seed,
        dealer_resolved(
            old(dealer)@,
            old(src).seed(),
            old(src).pos as int,
            final(dealer)@,
            final(src).pos as int,
        ),
        card_seq_ok(final(dealer)@),
        hard_sum(final(dealer)@) <= 26,
        final(dealer)@.len() >= old(dealer)@.len(),
{
    let ghost d0 = dealer@;
    let ghost p0 = src.pos as int;
    let mut best = hand_best_sum_bounded(dealer);
    while best < 17
        invariant
            card_seq_ok(dealer@),
            hard_sum(dealer@) <= 26,
            best == best_sum(dealer@),
            d0.is_prefix_of(dealer@),
            src.dealer_seed == old(src).dealer_seed,
            src.player_seed == old(src).player_seed,
            src.pos == p0 + dealer@.len() - d0.len(),
            p0 <= 100000,
            forall|k: int|
                d0.len() <= k < dealer@.len() ==> dealer@[k] == card_at(
                    old(src).seed(),
                    p0 + k - d0.len(),
                ),
            forall|j: int| d0.len() <= j < dealer@.len() ==> best_sum(dealer@.take(j)) < 17,
        decreases
                if hard_sum(dealer@) >= 17 {
                    0int
                } else {
                    17 - hard_sum(dealer@)
                },
    {
        proof {
            lemma_hard_sum_ge_len(dealer@);
        }
        let ghost pre = dealer@;
        let c = src.draw();
        dealer.push(c);
        proof {
            lemma_hard_sum_push(pre, c);
            assert(dealer@.take(pre.len() as int) =~= pre);
            assert forall|j: int| d0.len() <= j < dealer@.len() implies best_sum(
                dealer@.take(j),
            ) < 17 by {
                if j < pre.len() {
                    assert(dealer@.take(j) =~= pre.take(j));
                } else {
                    assert(dealer@.take(j) =~= pre);
                }
            }
        }
        best = hand_best_sum_bounded(dealer);
    }
}

/// Best sum of a hand whose cards are known ranks; bounds the length first.
fn hand_best_sum_bounded(h: &Vec<u8>) -> (s: u64)
    requires
        card_seq_ok(h@),
        hard_sum(h@) <= 26,
    ensures
        s == best_sum(h@),
{
    proof {
        lemma_hard_sum_ge_len(h@);
    }
    hand_best_sum(h)
}

pub proof fn lemma_hard_sum2(h: Seq<u8>)
    requires
        h.len() == 2,
    ensures
        hard_sum(h) == h[0] + h[1],
{
    reveal_with_fuel(hard_sum, 3);
    assert(h.drop_last().drop_last() =~= Seq::<u8>::empty());
    assert(h.drop_last().len() == 1);
    assert(h.drop_last()[0] == h[0]);
}

/// One live game of the interactive service, and the replay state of the
/// batch verifier: both run on exactly this machine.
pub struct BlackjackStateMachine {
    pub dealer_seed: [u8; 16],
    pub player_seed: [u8; 16],
    pub dealer_hand: Vec<u8>,
    pub player_hands: Vec<Vec<u8>>,
    pub doubles: Vec<u8>,
    pub splits: Vec<u8>,
    pub initial_bets: Vec<u128>,
    pub base_bets: Vec<u128>,
    pub bets: Vec<u128>,
    pub winnings: Vec<u128>,
    pub results: Vec<HandResult>,
    pub hands_active: Vec<bool>,
    pub player_pubkey: Vec<u8>,
    pub source: CardSource,
    pub hand_id: usize,
    pub actions: Vec<WireAction>,
    pub signatures: Vec<[u8; 64]>,
}

impl View for BlackjackStateMachine {
    type V = GameState;

    open spec fn view(&self) -> GameState {
        GameState {
            dealer: self.dealer_hand@,
            hands: hands_deep(self.player_hands@),
            active: self.hands_active@,
            bets: self.bets@,
            base_bets: self.base_bets@,
            winnings: self.winnings@,
            results: self.results@,
            doubles: self.doubles@,
            splits: self.splits@,
            focus: self.hand_id as int,
            pos: self.source.pos as int,
        }
    }
}

/// The 32-byte card-stream seed of a game: dealer seed, then player seed.
pub open spec fn game_seed(m: BlackjackStateMachine) -> Seq<u8> {
    m.dealer_seed@ + m.player_seed@
}

/// Identity fields that no action ever changes.
pub open spec fn machine_frame(pre: BlackjackStateMachine, post: BlackjackStateMachine) -> bool {
    &&& post.dealer_seed == pre.dealer_seed
    &&& post.player_seed == pre.player_seed
    &&& post.player_pubkey@ == pre.player_pubkey@
    &&& post.initial_bets@ == pre.initial_bets@
}

/// The initial state dealt for a seed and bet list: two dealer cards, then
/// two cards per hand, with natural blackjacks retired at once.
pub open spec fn dealt_hands(seed: Seq<u8>, n: int) -> Seq<Seq<u8>> {
    Seq::new(n as nat, |i: int| seq![card_at(seed, 2 + 2 * i), card_at(seed, 3 + 2 * i)])
}

pub open spec fn dealt_state(seed: Seq<u8>, bets: Seq<u128>) -> GameState {
    let n = bets.len() as int;
    let hands = dealt_hands(seed, n);
    GameState {
        dealer: seq![card_at(seed, 0), card_at(seed, 1)],
        hands: hands,
        active: Seq::new(n as nat, |i: int| !spec_blackjack(hands[i])),
        bets: bets,
        base_bets: bets,
        winnings: Seq::new(n as nat, |i: int| 0u128),
        results: Seq::empty(),
        doubles: Seq::empty(),
        splits: Seq::empty(),
        focus: 0,
        pos: 2 + 2 * n,
    }
}

/// What game creation produces. If the dealer's deal is a natural blackjack
/// the game ends at creation: blackjack hands are paid at the blackjack
/// multiplier, all other hands are retired with nothing, and no card is
/// drawn. If instead every player hand is a natural blackjack, the dealer is
/// resolved and the game is scored at once. Otherwise play begins.
pub open spec fn new_outcome(seed: Seq<u8>, bets: Seq<u128>, post: GameState) -> bool {
    let dealt = dealt_state(seed, bets);
    if spec_blackjack(dealt.dealer) {
        post == finalized(
            GameState { active: Seq::new(bets.len(), |i: int| false), ..dealt },
        )
    } else if all_inactive(dealt.active) {
        &&& dealer_resolved(dealt.dealer, seed, dealt.pos, post.dealer, post.pos)
        &&& post == finalized(GameState { dealer: post.dealer, pos: post.pos, ..dealt })
    } else {
        post == dealt
    }
}

/// Settling a game that ends at creation overflows the wager type.
pub open spec fn new_overflows(seed: Seq<u8>, bets: Seq<u128>) -> bool {
    let dealt = dealt_state(seed, bets);
    if spec_blackjack(dealt.dealer) {
        scoring_overflows(GameState { active: Seq::new(bets.len(), |i: int| false), ..dealt })
    } else if all_inactive(dealt.active) {
        exists|d: Seq<u8>, p: int|
            dealer_resolved(dealt.dealer, seed, dealt.pos, d, p) && scoring_overflows(
                GameState { dealer: d, ..dealt },
            )
    } else {
        false
    }
}

impl BlackjackStateMachine {
    /// Structural soundness of a live game: parallel lists, card ranks and
    /// hand sums in range, the focus never behind a still-active hand, the
    /// card source exactly as far along as the cards on the table, and one
    /// logged signature per accepted action.
    pub open spec fn wf(&self) -> bool {
        let n = self.player_hands@.len() as int;
        &&& self.hands_active@.len() == n
        &&& self.bets@.len() == n
        &&& self.base_bets@.len() == n
        &&& self.winnings@.len() == n
        &&& self.initial_bets@.len() <= 255
        &&& n <= if self.initial_bets@.len() < 4 {
            4int
        } else {
            self.initial_bets@.len() as int
        }
        &&& forall|i: int| 0 <= i < n ==> card_seq_ok((#[trigger] self.player_hands@[i])@)
        &&& forall|i: int| 0 <= i < n ==> hard_sum((#[trigger] self.player_hands@[i])@) <= 31
        &&& card_seq_ok(self.dealer_hand@)
        &&& 2 <= self.dealer_hand@.len()
        &&& hard_sum(self.dealer_hand@) <= 26
        &&& self.hand_id <= n
        &&& forall|i: int| 0 <= i < self.hand_id ==> !(#[trigger] self.hands_active@[i])
        &&& self.source.dealer_seed == self.dealer_seed
        &&& self.source.player_seed == self.player_seed
        &&& self.source.pos == self.dealer_hand@.len() + total_len(hands_deep(self.player_hands@))
        &&& forall|i: int|
            0 <= i < n ==> (self.hands_active@[i] ==> #[trigger] self.bets@[i]
                == self.base_bets@[i])
        &&& self.results@.len() == if all_inactive(self.hands_active@) {
            n
        } else {
            0int
        }
        &&& self.actions@.len() == self.signatures@.len()
    }
}

/// A well-formed game's card source is never near the end of its counter:
/// at most 255 hands of at most 31 points each, and a dealer hand of at most
/// 26 points, bound the number of cards drawn.
pub proof fn lemma_pos_bound(m: &BlackjackStateMachine)
    requires
        m.wf(),
    ensures
        m.source.pos <= 26 + 255 * 31,
{
    lemma_hard_sum_ge_len(m.dealer_hand@);
    let hs = hands_deep(m.player_hands@);
    assert forall|i: int| 0 <= i < hs.len() implies (#[trigger] hs[i]).len() <= 31 by {
        lemma_hard_sum_ge_len(m.player_hands@[i]@);
    }
    lemma_total_len_bound(hs, 31);
    assert(hs.len() * 31 <= 255 * 31) by (nonlinear_arith)
        requires
            hs.len() <= 255,
    ;
}

impl BlackjackStateMachine {
    /// Create a game: seed the card source with the seed pair, deal two
    /// cards to the dealer and two to each hand, retire natural blackjacks,
    /// and settle at once if no hand is left to play. At most 255 hands (the
    /// wire format counts hands in one byte); a settlement that overflows the
    /// wager type is a fatal error, not a truncation.
    pub fn new(
        dealer_seed: [u8; 16],
        player_seed: [u8; 16],
        player_pubkey: Vec<u8>,
        bets: Vec<u128>,
    ) -> (r: Result<BlackjackStateMachine, Error>)
        ensures
            ({
                let seed = dealer_seed@ + player_seed@;
                match r {
                    Ok(m) => {
                        &&& m.wf()
                        &&& m.dealer_seed == dealer_seed
                        &&& m.player_seed == player_seed
                        &&& m.player_pubkey@ == player_pubkey@
                        &&& m.initial_bets@ == bets@
                        &&& m.actions@.len() == 0
                        &&& m.signatures@.len() == 0
                        &&& new_outcome(seed, bets@, m@)
                        &&& !new_overflows(seed, bets@)
                        &&& bets@.len() <= 255
                    },
                    Err(e) => {
                        ||| (e == Error::Malformed && bets@.len() > 255)
                        ||| (e == Error::Overflow && bets@.len() <= 255 && new_overflows(
                            seed,
                            bets@,
                        ))
                    },
                }
            }),
    {
        if bets.len() > 255 {
            return Err(Error::Malformed);
        }
        let ghost seed = dealer_seed@ + player_seed@;
        let ghost dealt = dealt_state(seed, bets@);
        let mut src = CardSource::new(dealer_seed, player_seed);
        proof {
            assert(src.seed() == seed);
        }
        let mut dealer: Vec<u8> = Vec::new();
        let c0 = src.draw();
        dealer.push(c0);
        let c1 = src.draw();
        dealer.push(c1);
        proof {
            assert(dealer@ =~= dealt.dealer);
            lemma_hard_sum2(dealer@);
        }
        let n = bets.len();
        let mut hands: Vec<Vec<u8>> = Vec::new();
        let mut active: Vec<bool> = Vec::new();
        let mut winnings: Vec<u128> = Vec::new();
        let mut i: usize = 0;
        while i < n
            invariant
                0 <= i <= n,
                n == bets@.len(),
                n <= 255,
                src.dealer_seed == dealer_seed,
                src.player_seed == player_seed,
                src.pos == 2 + 2 * i,
                dealer@ == dealt.dealer,
                dealt == dealt_state(seed, bets@),
                seed == dealer_seed@ + player_seed@,
                hands@.len() == i,
                active@.len() == i,
                winnings@.len() == i,
                forall|j: int| 0 <= j < i ==> (#[trigger] hands@[j])@ == dealt.hands[j],
                forall|j: int| 0 <= j < i ==> active@[j] == dealt.active[j],
                forall|j: int| 0 <= j < i ==> winnings@[j] == 0u128,
                forall|j: int| 0 <= j < i ==> card_seq_ok((#[trigger] hands@[j])@),
                forall|j: int| 0 <= j < i ==> hard_sum((#[trigger] hands@[j])@) <= 20,
                total_len(hands_deep(hands@)) == 2 * i,
            decreases n - i,
        {
            let ghost hands_pre = hands@;
            let a = src.draw();
            let b = src.draw();
            let mut h: Vec<u8> = Vec::new();
            h.push(a);
            h.push(b);
            proof {
                assert(h@ =~= dealt.hands[i as int]);
                lemma_hard_sum2(h@);
            }
            let bj = is_blackjack(&h);
            hands.push(h);
            active.push(!bj);
            winnings.push(0u128);
            proof {
                assert(hands_deep(hands@).drop_last() =~~= hands_deep(hands_pre));
            }
            i = i + 1;
        }
        proof {
            assert(hands_deep(hands@) =~~= dealt.hands);
            assert(active@ =~= dealt.active);
        }
        let initial_bets = bets;
        let base_bets = copy_vec(&initial_bets);
        let cur_bets = copy_vec(&initial_bets);
        let doubles: Vec<u8> = Vec::new();
        let splits: Vec<u8> = Vec::new();
        let dealer_bj = is_blackjack(&dealer);
        let live = all_inactive_exec(&active);
        if dealer_bj || live {
            let mut active2: Vec<bool> = Vec::new();
            if dealer_bj {
                let mut j: usize = 0;
                while j < n
                    invariant
                        0 <= j <= n,
                        active2@.len() == j,
                        forall|k: int| 0 <= k < j ==> !(#[trigger] active2@[k]),
                    decreases n - j,
                {
                    active2.push(false);
                    j = j + 1;
                }
            } else {
                active2 = active;
                resolve_dealer(&mut dealer, &mut src);
            }
            let dealer_best = hand_best_sum_bounded(&dealer);
            proof {
                assert forall|k: int| 0 <= k < hands@.len() implies (#[trigger] hands@[k])@.len()
                    <= 1000 by {
                    lemma_hard_sum_ge_len(hands@[k]@);
                }
            }
            let scored = score_all(&hands, &base_bets, &doubles, dealer_best);
            let ghost end_state = if dealer_bj {
                GameState { active: Seq::new(bets@.len(), |q: int| false), ..dealt }
            } else {
                GameState { dealer: dealer@, pos: src.pos as int, ..dealt }
            };
            proof {
                assert(end_state.active =~= active2@);
                assert(end_state.hands == hands_deep(hands@));
                assert(doubles@ =~= dealt.doubles);
                assert(end_state.base_bets == base_bets@);
                assert(end_state.dealer == dealer@);
                assert(best_sum(end_state.dealer) == dealer_best as int);
            }
            match scored {
                None => {
                    proof {
                        if !dealer_bj {
                            assert(dealer_resolved(
                                dealt.dealer,
                                seed,
                                dealt.pos,
                                dealer@,
                                src.pos as int,
                            ));
                            assert(scoring_overflows(GameState { dealer: dealer@, ..dealt }));
                        }
                    }
                    Err(Error::Overflow)
                },
                Some((results, win)) => {
                    let m = BlackjackStateMachine {
                        dealer_seed,
                        player_seed,
                        dealer_hand: dealer,
                        player_hands: hands,
                        doubles,
                        splits,
                        initial_bets,
                        base_bets,
                        bets: cur_bets,
                        winnings: win,
                        results,
                        hands_active: active2,
                        player_pubkey,
                        source: src,
                        hand_id: 0,
                        actions: Vec::new(),
                        signatures: Vec::new(),
                    };
                    proof {
                        assert(m@ =~~= finalized(end_state));
                        if !dealer_bj {
                            assert forall|d: Seq<u8>, p: int|
                                dealer_resolved(dealt.dealer, seed, dealt.pos, d, p) implies
                                !scoring_overflows(GameState { dealer: d, ..dealt }) by {
                                lemma_dealer_resolved_unique(
                                    dealt.dealer,
                                    seed,
                                    dealt.pos,
                                    d,
                                    p,
                                    dealer@,
                                    src.pos as int,
                                );
                            }
                            assert(!new_overflows(seed, bets@));
                        }
                    }
                    Ok(m)
                },
            }
        } else {
            let m = BlackjackStateMachine {
                dealer_seed,
                player_seed,
                dealer_hand: dealer,
                player_hands: hands,
                doubles,
                splits,
                initial_bets,
                base_bets,
                bets: cur_bets,
                winnings,
                results: Vec::new(),
                hands_active: active,
                player_pubkey,
                source: src,
                hand_id: 0,
                actions: Vec::new(),
                signatures: Vec::new(),
            };
            proof {
                assert(m@ =~~= dealt);
            }
            Ok(m)
        }
    }

    /// Submit one already-authenticated action to the rules engine. The
    /// action is validated and applied atomically: on any rejection the game
    /// is exactly as it was. When the action retires the last active hand,
    /// the dealer is resolved and every hand is scored and paid.
    pub fn try_action(&mut self, action: &Action) -> (r: Result<(), Error>)
        requires
            old(self).wf(),
        ensures
            final(self).wf(),
            step_spec(game_seed(*old(self)), old(self)@, action@, final(self)@, r),
            machine_frame(*old(self), *final(self)),
            final(self).actions@ == old(self).actions@,
            final(self).signatures@ == old(self).signatures@,
    {
        let ghost s0 = self@;
        let ghost seed = game_seed(*self);
        proof {
            assert(self.source.seed() == seed);
        }
        if all_inactive_exec(&self.hands_active) {
            return Err(Error::InvalidAction);
        }
        let n = self.player_hands.len();
        let mut f = self.hand_id;
        while f < n && !self.hands_active[f]
            invariant
                old(self).hand_id <= f <= n,
                n == s0.active.len(),
                s0 == self@,
                *self == *old(self),
                forall|j: int| 0 <= j < f ==> !s0.active[j],
                next_focus(s0.active, s0.focus) == next_focus(s0.active, f as int),
            decreases n - f,
        {
            proof {
                assert(next_focus(s0.active, f as int) == next_focus(s0.active, f as int + 1));
            }
            f = f + 1;
        }
        proof {
            if f == n {
                assert(!all_inactive(s0.active));
                let j = choose|j: int| 0 <= j < s0.active.len() && s0.active[j];
                assert(!s0.active[j]);
                assert(false);
            }
            assert(s0.active[f as int]);
            assert(next_focus(s0.active, s0.focus) == f as int);
        }
        let ghost fo = f as int;
        proof {
            assert(s0.hands[fo] == self.player_hands@[fo]@);
        }
        if action.hand_id as usize != f {
            return Err(Error::UnexpectedHand);
        }
        if !vec_eq_u8(&action.my_cards, &self.player_hands[f]) {
            return Err(Error::UnexpectedHand);
        }
        if !vec_eq_u8(&action.dealer_cards, &self.dealer_hand) {
            return Err(Error::UnexpectedHand);
        }
        proof {
            lemma_hard_sum_ge_len(self.player_hands@[fo]@);
        }
        match action.inner {
            ActionType::Hit => {
                let hs = hand_hard_sum(&self.player_hands[f]);
                if hs > 21 {
                    return Err(Error::InvalidAction);
                }
            },
            ActionType::Stand => {},
            ActionType::Double => {
                if self.player_hands[f].len() != 2 {
                    return Err(Error::InvalidAction);
                }
                if self.bets[f] > u128::MAX / 2 {
                    return Err(Error::Overflow);
                }
            },
            ActionType::Split => {
                if self.player_hands[f].len() != 2 {
                    return Err(Error::InvalidAction);
                }
                if self.player_hands.len() >= 4 {
                    return Err(Error::InvalidAction);
                }
                if self.player_hands[f][0] != self.player_hands[f][1] {
                    return Err(Error::InvalidAction);
                }
            },
        }
        proof {
            assert(validate(s0, action@) is None);
            lemma_pos_bound(self);
        }
        let mut hands = copy_hands(&self.player_hands);
        let mut active = copy_vec(&self.hands_active);
        let mut bets = copy_vec(&self.bets);
        let base_bets_l = copy_vec(&self.base_bets);
        let mut winnings = copy_vec(&self.winnings);
        let mut doubles = copy_vec(&self.doubles);
        let mut splits = copy_vec(&self.splits);
        let mut dealer = crate::wire::copy_bytes(&self.dealer_hand);
        let mut src = self.source;
        let mut new_focus = f;
        let ghost mid = apply_action(seed, s0, action@);
        match action.inner {
            ActionType::Hit => {
                let c = src.draw();
                let ghost h = s0.hands[fo].push(c);
                proof {
                    lemma_hard_sum_push(s0.hands[fo], c);
                    lemma_hard_sum_ge_len(s0.hands[fo]);
                }
                hands[f].push(c);
                proof {
                    assert(hands@[fo]@ == h);
                }
                let hs2 = hand_hard_sum(&hands[f]);
                if hs2 > 21 {
                    active[f] = false;
                    new_focus = f + 1;
                }
                proof {
                    assert(hands_deep(hands@) =~~= mid.hands);
                    assert(active@ =~= mid.active);
                    lemma_total_len_update(s0.hands, fo, h);
                    assert forall|j: int| 0 <= j < mid.hands.len() implies card_seq_ok(
                        #[trigger] mid.hands[j],
                    ) && hard_sum(mid.hands[j]) <= 31 by {
                        if j == fo {
                            assert(mid.hands[j] == h);
                            assert forall|k: int| 0 <= k < h.len() implies 1 <= #[trigger] h[k]
                                <= 10 by {
                                if k < s0.hands[fo].len() {
                                    assert(h[k] == s0.hands[fo][k]);
                                }
                            }
                        } else {
                            assert(mid.hands[j] == s0.hands[j]);
                        }
                    }
                }
            },
            ActionType::Stand => {
                active[f] = false;
                new_focus = f + 1;
                proof {
                    assert(hands_deep(hands@) =~~= mid.hands);
                    assert(active@ =~= mid.active);
                }
            },
            ActionType::Double => {
                let c = src.draw();
                let ghost h = s0.hands[fo].push(c);
                proof {
                    lemma_hard_sum2(s0.hands[fo]);
                    lemma_hard_sum_push(s0.hands[fo], c);
                }
                hands[f].push(c);
                active[f] = false;
                let nb = bets[f] * 2;
                bets[f] = nb;
                doubles.push(f as u8);
                new_focus = f + 1;
                proof {
                    assert(hands@[fo]@ == h);
                    assert(hands_deep(hands@) =~~= mid.hands);
                    assert(active@ =~= mid.active);
                    assert(bets@ =~= mid.bets);
                    assert(doubles@ =~= mid.doubles);
                    lemma_total_len_update(s0.hands, fo, h);
                    assert forall|j: int| 0 <= j < mid.hands.len() implies card_seq_ok(
                        #[trigger] mid.hands[j],
                    ) && hard_sum(mid.hands[j]) <= 31 by {
                        if j == fo {
                            assert(mid.hands[j] == h);
                            assert(hard_sum(s0.hands[fo]) <= 20);
                            assert forall|k: int| 0 <= k < h.len() implies 1 <= #[trigger] h[k]
                                <= 10 by {
                                if k < s0.hands[fo].len() {
                                    assert(h[k] == s0.hands[fo][k]);
                                }
                            }
                        } else {
                            assert(mid.hands[j] == s0.hands[j]);
                        }
                    }
                }
            },
            ActionType::Split => {
                let h0 = self.player_hands[f][0];
                let h1 = self.player_hands[f][1];
                let c = src.draw();
                proof {
                    lemma_hard_sum2(s0.hands[fo]);
                }
                let mut nh: Vec<u8> = Vec::new();
                nh.push(h0);
                nh.push(c);
                let mut sh: Vec<u8> = Vec::new();
                sh.push(h1);
                proof {
                    assert(nh@ =~= seq![s0.hands[fo][0], c]);
                    assert(sh@ =~= seq![s0.hands[fo][1]]);
                    lemma_hard_sum2(nh@);
                    assert(sh@ =~= Seq::<u8>::empty().push(h1));
                    lemma_hard_sum_push(Seq::<u8>::empty(), h1);
                    assert(hard_sum(sh@) == h1);
                }
                hands[f] = nh;
                hands.insert(f + 1, sh);
                active.insert(f + 1, true);
                let bf = bets[f];
                bets.insert(f + 1, bf);
                winnings.insert(f + 1, 0u128);
                splits.push(f as u8);
                proof {
                    assert(hands_deep(hands@) =~~= mid.hands);
                    assert(active@ =~= mid.active);
                    assert(bets@ =~= mid.bets);
                    assert(winnings@ =~= mid.winnings);
                    assert(splits@ =~= mid.splits);
                    lemma_total_len_update(s0.hands, fo, nh@);
                    lemma_total_len_insert(s0.hands.update(fo, nh@), fo + 1, sh@);
                    assert forall|j: int| 0 <= j < mid.hands.len() implies card_seq_ok(
                        #[trigger] mid.hands[j],
                    ) && hard_sum(mid.hands[j]) <= 31 by {
                        if j == fo {
                            assert(mid.hands[j] == nh@);
                        } else if j == fo + 1 {
                            assert(mid.hands[j] == sh@);
                        } else if j < fo {
                            assert(mid.hands[j] == s0.hands[j]);
                        } else {
                            assert(mid.hands[j] == s0.hands[j - 1]);
                        }
                    }
                }
            },
        }
        let base_bets_l = if let ActionType::Split = action.inner {
            let mut b2 = base_bets_l;
            let bbf = b2[f];
            b2.insert(f + 1, bbf);
            b2
        } else {
            base_bets_l
        };
        proof {
            assert(base_bets_l@ =~= mid.base_bets);
            assert(dealer@ == mid.dealer);
            assert(src.pos == mid.pos);
            assert(new_focus as int == mid.focus);
            assert(mid.hands.len() == active@.len());
            assert forall|i: int| 0 <= i < mid.focus implies !(#[trigger] mid.active[i]) by {
                if i < fo {
                    assert(!s0.active[i]);
                }
            }
            assert forall|i: int|
                0 <= i < mid.active.len() && mid.active[i] implies #[trigger] mid.bets[i]
                == mid.base_bets[i] by {
                if action@.inner is Split {
                    if i < fo + 1 {
                        assert(mid.bets[i] == s0.bets[i]);
                    } else if i == fo + 1 {
                        assert(mid.bets[i] == s0.bets[fo]);
                    } else {
                        assert(mid.bets[i] == s0.bets[i - 1]);
                        assert(mid.active[i] == s0.active[i - 1]);
                    }
                }
            }
            assert(src.pos as int == mid.dealer.len() + total_len(mid.hands));
        }
        if !all_inactive_exec(&active) {
            self.player_hands = hands;
            self.hands_active = active;
            self.bets = bets;
            self.base_bets = base_bets_l;
            self.winnings = winnings;
            self.doubles = doubles;
            self.splits = splits;
            self.dealer_hand = dealer;
            self.source = src;
            self.hand_id = new_focus;
            proof {
                assert(self@ =~~= mid);
                assert forall|i: int| 0 <= i < self.player_hands@.len() implies card_seq_ok(
                    (#[trigger] self.player_hands@[i])@,
                ) && hard_sum(self.player_hands@[i]@) <= 31 by {
                    assert(self.player_hands@[i]@ == mid.hands[i]);
                }
            }
            return Ok(());
        }
        proof {
            assert(all_inactive(mid.active));
        }
        resolve_dealer(&mut dealer, &mut src);
        let dealer_best = hand_best_sum_bounded(&dealer);
        proof {
            assert forall|k: int| 0 <= k < hands@.len() implies (#[trigger] hands@[k])@.len()
                <= 1000 by {
                assert(hands@[k]@ == mid.hands[k]);
                lemma_hard_sum_ge_len(mid.hands[k]);
            }
        }
        match score_all(&hands, &base_bets_l, &doubles, dealer_best) {
            None => {
                proof {
                    assert(dealer_resolved(mid.dealer, seed, mid.pos, dealer@, src.pos as int));
                    assert(scoring_overflows(GameState { dealer: dealer@, ..mid }));
                }
                Err(Error::Overflow)
            },
            Some((results, win)) => {
                self.player_hands = hands;
                self.hands_active = active;
                self.bets = bets;
                self.base_bets = base_bets_l;
                self.winnings = win;
                self.results = results;
                self.doubles = doubles;
                self.splits = splits;
                self.dealer_hand = dealer;
                self.source = src;
                self.hand_id = new_focus;
                proof {
                    assert(dealer_resolved(mid.dealer, seed, mid.pos, dealer@, src.pos as int));
                    assert forall|d: Seq<u8>, p: int|
                        dealer_resolved(mid.dealer, seed, mid.pos, d, p) implies
                        !scoring_overflows(GameState { dealer: d, ..mid }) by {
                        lemma_dealer_resolved_unique(
                            mid.dealer,
                            seed,
                            mid.pos,
                            d,
                            p,
                            dealer@,
                            src.pos as int,
                        );
                    }
                    assert(self@ =~~= finalized(
                        GameState { dealer: dealer@, pos: src.pos as int, ..mid },
                    ));
                    assert forall|i: int| 0 <= i < self.player_hands@.len() implies card_seq_ok(
                        (#[trigger] self.player_hands@[i])@,
                    ) && hard_sum(self.player_hands@[i]@) <= 31 by {
                        assert(self.player_hands@[i]@ == mid.hands[i]);
                    }
                }
                Ok(())
            },
        }
    }
}

/// A completed game's replayable record: what the batch verifier consumes.
pub struct GameInput {
    pub player_seed: [u8; 16],
    pub pubkey: Vec<u8>,
    pub initial_hands: u8,
    pub bets: Vec<u128>,
    pub actions: Vec<WireAction>,
    pub signatures: Vec<[u8; 64]>,
}

/// The full effect of submitting one signed wire action: the nonce must be
/// the count of previously accepted actions, the signature must verify over
/// the canonical encoding against the registered key, the kind byte must be
/// mapped, and then the rules engine takes over ([`step_spec`]); an accepted
/// action is appended to the log with its signature.
pub open spec fn input_spec(
    pre: BlackjackStateMachine,
    w: WireActionV,
    sig: Seq<u8>,
    post: BlackjackStateMachine,
    r: Result<(), Error>,
) -> bool {
    if w.nonce as int != pre.actions@.len() {
        r == Err::<(), Error>(Error::BadNonce) && post == pre
    } else if !sig_ok(
        action_wire(w.nonce, w.hand_id, w.kind, w.my_cards, w.dealer_cards),
        sig,
        pre.player_pubkey@,
    ) {
        r == Err::<(), Error>(Error::BadSignature) && post == pre
    } else {
        match kind_of(w.kind) {
            None => r == Err::<(), Error>(Error::Malformed) && post == pre,
            Some(t) => {
                let a = ActionV {
                    hand_id: w.hand_id,
                    inner: t,
                    my_cards: w.my_cards,
                    dealer_cards: w.dealer_cards,
                };
                &&& step_spec(game_seed(pre), pre@, a, post@, r)
                &&& machine_frame(pre, post)
                &&& (r is Err ==> post.actions@ == pre.actions@ && post.signatures@
                    == pre.signatures@)
                &&& (r is Ok ==> {
                    &&& post.actions@.len() == pre.actions@.len() + 1
                    &&& post.actions@.last()@ == w
                    &&& forall|k: int|
                        0 <= k < pre.actions@.len() ==> #[trigger] post.actions@[k]
                            == pre.actions@[k]
                    &&& post.signatures@.len() == pre.signatures@.len() + 1
                    &&& (#[trigger] post.signatures@.last())@ == sig
                    &&& forall|k: int|
                        0 <= k < pre.signatures@.len() ==> #[trigger] post.signatures@[k]
                            == pre.signatures@[k]
                })
            },
        }
    }
}

/// The rules engine is deterministic: from one state, one action has exactly
/// one outcome. The online service and the offline replay run the same step
/// relation, so on the same seed, state and action they cannot diverge.
pub proof fn lemma_step_deterministic(
    seed: Seq<u8>,
    pre: GameState,
    a: ActionV,
    p1: GameState,
    r1: Result<(), Error>,
    p2: GameState,
    r2: Result<(), Error>,
)
    requires
        step_spec(seed, pre, a, p1, r1),
        step_spec(seed, pre, a, p2, r2),
    ensures
        p1 == p2,
        r1 == r2,
{
    if validate(pre, a) is None {
        let mid = apply_action(seed, pre, a);
        if all_inactive(mid.active) && r1 is Ok {
            lemma_dealer_resolved_unique(
                mid.dealer,
                seed,
                mid.pos,
                p1.dealer,
                p1.pos,
                p2.dealer,
                p2.pos,
            );
        }
    }
}

/// A trace of intermediate states: one more state than actions, with each
/// action accepted between its neighbours.
pub open spec fn is_trace(
    seed: Seq<u8>,
    states: Seq<GameState>,
    acts: Seq<ActionV>,
) -> bool {
    &&& states.len() == acts.len() + 1
    &&& forall|k: int|
        0 <= k < acts.len() ==> step_spec(seed, states[k], #[trigger] acts[k], states[k + 1], Ok(()))
}

/// `s1` is reached from `s0` by accepting every action of `acts` in order.
pub open spec fn replay_to(seed: Seq<u8>, s0: GameState, acts: Seq<ActionV>, s1: GameState) -> bool {
    exists|states: Seq<GameState>|
        #[trigger] is_trace(seed, states, acts) && states.first() == s0 && states.last() == s1
}

/// The empty replay stays put.
pub proof fn lemma_replay_empty(seed: Seq<u8>, s0: GameState)
    ensures
        replay_to(seed, s0, Seq::<ActionV>::empty(), s0),
{
    let states = seq![s0];
    assert(is_trace(seed, states, Seq::<ActionV>::empty()));
}

/// Extending a replay by one accepted action.
pub proof fn lemma_replay_snoc(
    seed: Seq<u8>,
    s0: GameState,
    acts: Seq<ActionV>,
    s1: GameState,
    a: ActionV,
    s2: GameState,
)
    requires
        replay_to(seed, s0, acts, s1),
        step_spec(seed, s1, a, s2, Ok(())),
    ensures
        replay_to(seed, s0, acts.push(a), s2),
{
    let states = choose|states: Seq<GameState>|
        #[trigger] is_trace(seed, states, acts) && states.first() == s0 && states.last() == s1;
    let states2 = states.push(s2);
    assert forall|k: int| 0 <= k < acts.push(a).len() implies step_spec(
        seed,
        states2[k],
        #[trigger] acts.push(a)[k],
        states2[k + 1],
        Ok(()),
    ) by {
        if k < acts.len() {
            assert(acts.push(a)[k] == acts[k]);
            assert(step_spec(seed, states[k], acts[k], states[k + 1], Ok(())));
        } else {
            assert(acts.push(a)[k] == a);
            assert(states2[k] == states.last());
        }
    }
    assert(is_trace(seed, states2, acts.push(a)));
    assert(states2.first() == s0);
    assert(states2.last() == s2);
}

proof fn lemma_traces_agree(
    seed: Seq<u8>,
    t1: Seq<GameState>,
    t2: Seq<GameState>,
    acts: Seq<ActionV>,
    k: int,
)
    requires
        is_trace(seed, t1, acts),
        is_trace(seed, t2, acts),
        t1.first() == t2.first(),
        0 <= k < t1.len(),
    ensures
        t1[k] == t2[k],
    decreases k,
{
    if k > 0 {
        lemma_traces_agree(seed, t1, t2, acts, k - 1);
        lemma_step_deterministic(
            seed,
            t1[k - 1],
            acts[k - 1],
            t1[k],
            Ok(()),
            t2[k],
            Ok(()),
        );
    }
}

/// Replaying one action log from one state ends in exactly one state: the
/// batch verifier reaches the state the interactive machine reached.
pub proof fn lemma_replay_deterministic(
    seed: Seq<u8>,
    s0: GameState,
    acts: Seq<ActionV>,
    s1: GameState,
    s2: GameState,
)
    requires
        replay_to(seed, s0, acts, s1),
        replay_to(seed, s0, acts, s2),
    ensures
        s1 == s2,
{
    let t1 = choose|t: Seq<GameState>|
        #[trigger] is_trace(seed, t, acts) && t.first() == s0 && t.last() == s1;
    let t2 = choose|t: Seq<GameState>|
        #[trigger] is_trace(seed, t, acts) && t.first() == s0 && t.last() == s2;
    lemma_traces_agree(seed, t1, t2, acts, acts.len() as int);
}

/// A signed action log paired up with its signatures.
pub open spec fn wire_pairs(acts: Seq<WireAction>, sigs: Seq<[u8; 64]>) -> Seq<
    (WireActionV, Seq<u8>),
> {
    Seq::new(acts.len(), |i: int| (acts[i]@, sigs[i]@))
}

/// A trace of machines: one more machine than signed actions, with each
/// signed action accepted between its neighbours.
pub open spec fn is_input_trace(
    machines: Seq<BlackjackStateMachine>,
    pairs: Seq<(WireActionV, Seq<u8>)>,
) -> bool {
    &&& machines.len() == pairs.len() + 1
    &&& forall|k: int|
        0 <= k < pairs.len() ==> input_spec(
            machines[k],
            (#[trigger] pairs[k]).0,
            pairs[k].1,
            machines[k + 1],
            Ok(()),
        )
}

/// `m1` is reached from `m0` by accepting every signed action in order.
pub open spec fn input_replay_to(
    m0: BlackjackStateMachine,
    pairs: Seq<(WireActionV, Seq<u8>)>,
    m1: BlackjackStateMachine,
) -> bool {
    exists|machines: Seq<BlackjackStateMachine>|
        #[trigger] is_input_trace(machines, pairs) && machines.first() == m0 && machines.last()
            == m1
}

/// The empty signed replay stays put.
pub proof fn lemma_input_replay_empty(m0: BlackjackStateMachine)
    ensures
        input_replay_to(m0, Seq::<(WireActionV, Seq<u8>)>::empty(), m0),
{
    let machines = seq![m0];
    assert(is_input_trace(machines, Seq::<(WireActionV, Seq<u8>)>::empty()));
}

/// Extending a signed replay by one accepted action.
pub proof fn lemma_input_replay_snoc(
    m0: BlackjackStateMachine,
    pairs: Seq<(WireActionV, Seq<u8>)>,
    m1: BlackjackStateMachine,
    p: (WireActionV, Seq<u8>),
    m2: BlackjackStateMachine,
)
    requires
        input_replay_to(m0, pairs, m1),
        input_spec(m1, p.0, p.1, m2, Ok(())),
    ensures
        input_replay_to(m0, pairs.push(p), m2),
{
    let machines = choose|machines: Seq<BlackjackStateMachine>|
        #[trigger] is_input_trace(machines, pairs) && machines.first() == m0 && machines.last()
            == m1;
    let machines2 = machines.push(m2);
    assert forall|k: int| 0 <= k < pairs.push(p).len() implies input_spec(
        machines2[k],
        (#[trigger] pairs.push(p)[k]).0,
        pairs.push(p)[k].1,
        machines2[k + 1],
        Ok(()),
    ) by {
        if k < pairs.len() {
            assert(pairs.push(p)[k] == pairs[k]);
            assert(input_spec(machines[k], pairs[k].0, pairs[k].1, machines[k + 1], Ok(())));
        } else {
            assert(pairs.push(p)[k] == p);
            assert(machines2[k] == machines.last());
        }
    }
    assert(is_input_trace(machines2, pairs.push(p)));
    assert(machines2.first() == m0);
    assert(machines2.last() == m2);
}

/// `m` is a machine as game creation hands it out for these inputs.
pub open spec fn new_machine(
    dealer_seed: [u8; 16],
    player_seed: [u8; 16],
    pubkey: Seq<u8>,
    bets: Seq<u128>,
    m: BlackjackStateMachine,
) -> bool {
    &&& m.wf()
    &&& m.dealer_seed == dealer_seed
    &&& m.player_seed == player_seed
    &&& m.player_pubkey@ == pubkey
    &&& m.initial_bets@ == bets
    &&& m.actions@.len() == 0
    &&& m.signatures@.len() == 0
    &&& new_outcome(dealer_seed@ + player_seed@, bets, m@)
}

impl BlackjackStateMachine {
    /// Submit one signed action: check its nonce, verify its signature over
    /// the canonical encoding, decode its kind, run the rules engine, and log
    /// it if it was accepted. A rejected submission leaves the game exactly
    /// as it was.
    pub fn try_input(&mut self, action: WireAction, signature: &[u8; 64]) -> (r: Result<
        (),
        Error,
    >)
        requires
            old(self).wf(),
        ensures
            final(self).wf(),
            input_spec(*old(self), action@, signature@, *final(self), r),
    {
        if action.nonce as usize != self.actions.len() {
            return Err(Error::BadNonce);
        }
        let msg = crate::wire::abi_encode_action(&action);
        if !crate::crypto::verify_signature(
            msg.as_slice(),
            signature,
            self.player_pubkey.as_slice(),
        ) {
            return Err(Error::BadSignature);
        }
        let act = match crate::wire::to_action(&action) {
            Some(a) => a,
            None => {
                return Err(Error::Malformed);
            },
        };
        proof {
            assert(act@ == ActionV {
                hand_id: action@.hand_id,
                inner: kind_of(action@.kind).unwrap(),
                my_cards: action@.my_cards,
                dealer_cards: action@.dealer_cards,
            });
        }
        let r = self.try_action(&act);
        match r {
            Ok(()) => {
                self.actions.push(action);
                self.signatures.push(*signature);
                Ok(())
            },
            Err(e) => Err(e),
        }
    }

    /// The game is over: no hand is awaiting play.
    pub fn terminated(&self) -> (r: bool)
        ensures
            r == all_inactive(self.hands_active@),
    {
        all_inactive_exec(&self.hands_active)
    }

    /// Turn a finished game into its replayable record: the player seed, the
    /// registered key, the starting bets, and the accepted action log with
    /// its signatures. A game still in play has no record yet.
    pub fn extract(self) -> (r: Option<GameInput>)
        requires
            self.wf(),
        ensures
            r is Some <==> all_inactive(self.hands_active@),
            r matches Some(g) ==> {
                &&& g.player_seed == self.player_seed
                &&& g.pubkey@ == self.player_pubkey@
                &&& g.initial_hands as int == self.initial_bets@.len()
                &&& g.bets@ == self.initial_bets@
                &&& g.actions@ == self.actions@
                &&& g.signatures@ == self.signatures@
            },
    {
        if self.terminated() {
            let initial_hands = self.initial_bets.len() as u8;
            Some(
                GameInput {
                    player_seed: self.player_seed,
                    pubkey: self.player_pubkey,
                    initial_hands,
                    bets: self.initial_bets,
                    actions: self.actions,
                    signatures: self.signatures,
                },
            )
        } else {
            None
        }
    }
}

} // verus!
