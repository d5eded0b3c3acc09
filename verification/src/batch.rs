//! Offline batch verifier: replays complete signed action logs.
//!
//! Given the shared dealer seed and one record per game, each game is
//! replayed from scratch on the same rules engine the interactive service
//! runs, with every signature re-verified under the strict sequential nonce
//! check. A game whose log cannot be fully and legally replayed is reported
//! invalid with zero payout — and its siblings are unaffected. Only a
//! structurally malformed input or a wager overflow aborts the whole batch.

use vstd::prelude::*;
use crate::crypto::{sha256, sha256_of};
use crate::game::{
    all_inactive, dealt_state, input_replay_to, input_spec, new_machine, new_outcome,
    new_overflows, replay_to, step_spec, wire_pairs, BlackjackStateMachine, Error, GameInput,
    GameState,
};
use crate::payout::{eval_payout, total_payout, HandResult};
use crate::wire::{actions_wire, wire_views, Action, ActionV, WireAction, WireActionV};

verus! {

broadcast use vstd::array::group_array_axioms;

/// The record the verifier emits: one shared dealer commitment, and per game
/// a player commitment, the echoed key, the payout, the doubled and split
/// hand indices in event order, an audit hash of the raw action log (only
/// meaningful for an invalid game), and whether the replay terminated.
pub struct BatchOutput {
    pub dealer_commitment: [u8; 32],
    pub player_commitments: Vec<[u8; 32]>,
    pub player_pubkeys: Vec<Vec<u8>>,
    pub payouts: Vec<u128>,
    pub double_hands: Vec<Vec<u8>>,
    pub split_hands: Vec<Vec<u8>>,
    pub action_hash: Vec<[u8; 32]>,
    pub terminated: Vec<bool>,
}

/// Views of a decoded action list.
pub open spec fn action_views(s: Seq<Action>) -> Seq<ActionV> {
    s.map_values(|a: Action| a@)
}

/// A bet list of `n` zero wagers.
pub open spec fn zero_bets(n: int) -> Seq<u128> {
    Seq::new(n as nat, |i: int| 0u128)
}

/// The all-zero audit hash of a game that replayed cleanly.
pub open spec fn zero_hash() -> Seq<u8> {
    Seq::new(32, |i: int| 0u8)
}

/// Replaying `avs` from a fresh deal cannot finish: some prefix replays and
/// then the next action is rejected with `e`, or the whole log replays and
/// leaves a hand still in play.
pub open spec fn replay_fails(seed: Seq<u8>, bets0: Seq<u128>, avs: Seq<ActionV>, e: Error) -> bool {
    exists|s0: GameState, k: int, s: GameState|
        {
            &&& #[trigger] new_outcome(seed, bets0, s0)
            &&& 0 <= k <= avs.len()
            &&& #[trigger] replay_to(seed, s0, avs.take(k), s)
            &&& if k < avs.len() {
                step_spec(seed, s, avs[k], s, Err(e))
            } else {
                !all_inactive(s.active) && e == Error::InvalidAction
            }
        }
}

/// A game record is structurally sound: one signature per action, and the
/// declared hand count is the length of its bet list.
pub open spec fn game_shape_ok(g: GameInput) -> bool {
    g.actions@.len() == g.signatures@.len() && g.initial_hands as int == g.bets@.len()
}

/// `mf` is a machine reached by creating a game from this record and
/// accepting its whole signed action log in order.
pub open spec fn game_replayed(
    dealer_seed: [u8; 16],
    g: GameInput,
    mf: BlackjackStateMachine,
) -> bool {
    exists|m0: BlackjackStateMachine|
        #[trigger] new_machine(dealer_seed, g.player_seed, g.pubkey@, g.bets@, m0)
            && input_replay_to(m0, wire_pairs(g.actions@, g.signatures@), mf)
}

/// This machine rejects the signed action without mutation, for a reason
/// that invalidates only this game, never the batch.
pub open spec fn input_replay_rejects(
    m: BlackjackStateMachine,
    p: (WireActionV, Seq<u8>),
) -> bool {
    exists|e: Error|
        #[trigger] input_spec(m, p.0, p.1, m, Err(e)) && e != Error::Overflow && e
            != Error::Malformed
}

/// The record cannot be fully and legally replayed: some prefix of its signed
/// log is accepted and then the next submission is rejected, or the whole log
/// is accepted and a hand is still in play.
#[verifier::opaque]
pub open spec fn invalid_game_record(dealer_seed: [u8; 16], g: GameInput) -> bool {
    let pairs = wire_pairs(g.actions@, g.signatures@);
    exists|m0: BlackjackStateMachine, k: int, m: BlackjackStateMachine|
        {
            &&& #[trigger] new_machine(dealer_seed, g.player_seed, g.pubkey@, g.bets@, m0)
            &&& 0 <= k <= pairs.len()
            &&& #[trigger] input_replay_to(m0, pairs.take(k), m)
            &&& if k < pairs.len() {
                input_replay_rejects(m, pairs[k])
            } else {
                !all_inactive(m.hands_active@)
            }
        }
}

/// The record replays cleanly to a finished machine whose settled outcomes
/// sum to `payout`, with these doubled and split hand indices.
#[verifier::opaque]
pub open spec fn valid_game_record(
    dealer_seed: [u8; 16],
    g: GameInput,
    payout: u128,
    dbl: Seq<u8>,
    spl: Seq<u8>,
) -> bool {
    exists|mf: BlackjackStateMachine|
        {
            &&& #[trigger] game_replayed(dealer_seed, g, mf)
            &&& all_inactive(mf.hands_active@)
            &&& !crate::payout::some_payout_overflows(mf.base_bets@, mf.results@)
            &&& payout == total_payout(mf.base_bets@, mf.results@)
            &&& dbl == mf.doubles@
            &&& spl == mf.splits@
        }
}

/// Replay a full game without authentication: deal `initial_hands` hands
/// from the seed pair and apply the decoded actions in order. Succeeds
/// exactly on a log that plays every hand to rest, and then reports the
/// per-hand outcomes and the doubled and split hand indices in event order.
pub fn run_blackjack(
    dealer_seed: [u8; 16],
    player_seed: [u8; 16],
    initial_hands: u8,
    actions: Vec<Action>,
) -> (r: Result<(Vec<HandResult>, Vec<u8>, Vec<u8>), Error>)
    ensures
        ({
            let seed = dealer_seed@ + player_seed@;
            let bets0 = zero_bets(initial_hands as int);
            let avs = action_views(actions@);
            match r {
                Ok(out) => exists|s0: GameState, sf: GameState|
                    {
                        &&& #[trigger] new_outcome(seed, bets0, s0)
                        &&& #[trigger] replay_to(seed, s0, avs, sf)
                        &&& all_inactive(sf.active)
                        &&& out.0@ == sf.results
                        &&& out.1@ == sf.doubles
                        &&& out.2@ == sf.splits
                    },
                Err(e) => replay_fails(seed, bets0, avs, e),
            }
        }),
{
    let ghost seed = dealer_seed@ + player_seed@;
    let ghost bets0 = zero_bets(initial_hands as int);
    let ghost avs = action_views(actions@);
    let mut bets: Vec<u128> = Vec::new();
    let mut i: usize = 0;
    while i < initial_hands as usize
        invariant
            0 <= i <= initial_hands as usize,
            bets@.len() == i,
            forall|j: int| 0 <= j < i ==> bets@[j] == 0u128,
        decreases initial_hands as usize - i,
    {
        bets.push(0u128);
        i = i + 1;
    }
    proof {
        assert(bets@ =~= bets0);
    }
    let mut m = match BlackjackStateMachine::new(dealer_seed, player_seed, Vec::new(), bets) {
        Ok(m) => m,
        Err(e) => {
            proof {
                if e == Error::Overflow {
                    lemma_zero_bets_never_overflow(seed, bets0);
                }
                assert(false);
            }
            return Err(e);
        },
    };
    let ghost s0 = m@;
    let mut j: usize = 0;
    proof {
        assert(avs.take(0) =~= Seq::<ActionV>::empty());
        crate::game::lemma_replay_empty(seed, s0);
    }
    while j < actions.len()
        invariant
            0 <= j <= actions@.len(),
            m.wf(),
            m.dealer_seed == dealer_seed,
            m.player_seed == player_seed,
            avs == action_views(actions@),
            seed == dealer_seed@ + player_seed@,
            bets0 == zero_bets(initial_hands as int),
            new_outcome(seed, bets0, s0),
            replay_to(seed, s0, avs.take(j as int), m@),
        decreases actions@.len() - j,
    {
        let ghost mach_pre = m;
        let ghost pre = m@;
        let r = m.try_action(&actions[j]);
        proof {
            assert(crate::game::game_seed(mach_pre) == seed);
            assert(avs[j as int] == actions@[j as int]@);
        }
        match r {
            Ok(()) => {
                proof {
                    assert(avs.take(j + 1) =~= avs.take(j as int).push(avs[j as int]));
                    crate::game::lemma_replay_snoc(
                        seed,
                        s0,
                        avs.take(j as int),
                        pre,
                        avs[j as int],
                        m@,
                    );
                }
            },
            Err(e) => {
                proof {
                    assert(m@ == pre);
                    assert(step_spec(seed, pre, avs[j as int], pre, Err(e)));
                    assert(replay_to(seed, s0, avs.take(j as int), pre));
                    assert(replay_fails(seed, bets0, avs, e));
                }
                return Err(e);
            },
        }
        j = j + 1;
    }
    proof {
        assert(avs.take(actions@.len() as int) =~= avs);
    }
    if !m.terminated() {
        proof {
            assert(replay_to(seed, s0, avs.take(avs.len() as int), m@));
            assert(replay_fails(seed, bets0, avs, Error::InvalidAction));
        }
        return Err(Error::InvalidAction);
    }
    let results = copy_results(&m.results);
    let doubles = crate::wire::copy_bytes(&m.doubles);
    let splits = crate::wire::copy_bytes(&m.splits);
    Ok((results, doubles, splits))
}

/// A game wagered at zero never overflows a settlement.
proof fn lemma_zero_bets_never_overflow(seed: Seq<u8>, bets0: Seq<u128>)
    requires
        forall|j: int| 0 <= j < bets0.len() ==> bets0[j] == 0u128,
    ensures
        !new_overflows(seed, bets0),
{
    let dealt = dealt_state(seed, bets0);
    assert(dealt.base_bets == bets0);
}

/// Copy of a result list.
fn copy_results(v: &Vec<HandResult>) -> (r: Vec<HandResult>)
    ensures
        r@ == v@,
{
    let mut r: Vec<HandResult> = Vec::new();
    let mut i: usize = 0;
    while i < v.len()
        invariant
            0 <= i <= v@.len(),
            r@ =~= v@.take(i as int),
        decreases v@.len() - i,
    {
        r.push(v[i]);
        proof {
            assert(v@.take(i + 1) =~= v@.take(i as int).push(v@[i as int]));
        }
        i = i + 1;
    }
    proof {
        assert(v@.take(v@.len() as int) =~= v@);
    }
    r
}

/// Copy of a wire action.
fn copy_wire_action(a: &WireAction) -> (r: WireAction)
    ensures
        r@ == a@,
{
    WireAction {
        nonce: a.nonce,
        hand_id: a.hand_id,
        kind: a.kind,
        my_cards: crate::wire::copy_bytes(&a.my_cards),
        dealer_cards: crate::wire::copy_bytes(&a.dealer_cards),
    }
}

/// The record forces the whole batch to stop with `e`: it is structurally
/// malformed, settling it at creation overflows the wager type, some prefix
/// of its signed log is accepted and then a submission stops fatally, or it
/// replays cleanly but its total payout does not fit the wager type.
#[verifier::opaque]
pub open spec fn batch_fatal(dealer_seed: [u8; 16], g: GameInput, e: Error) -> bool {
    let pairs = wire_pairs(g.actions@, g.signatures@);
    ||| (e == Error::Malformed && !game_shape_ok(g))
    ||| (e == Error::Overflow && new_overflows(dealer_seed@ + g.player_seed@, g.bets@))
    ||| exists|m0: BlackjackStateMachine, k: int, m: BlackjackStateMachine|
        {
            &&& #[trigger] new_machine(dealer_seed, g.player_seed, g.pubkey@, g.bets@, m0)
            &&& 0 <= k < pairs.len()
            &&& #[trigger] input_replay_to(m0, pairs.take(k), m)
            &&& input_spec(m, pairs[k].0, pairs[k].1, m, Err(e))
        }
    ||| (e == Error::Overflow && exists|mf: BlackjackStateMachine|
        {
            &&& #[trigger] game_replayed(dealer_seed, g, mf)
            &&& all_inactive(mf.hands_active@)
            &&& (crate::payout::some_payout_overflows(mf.base_bets@, mf.results@)
                || total_payout(mf.base_bets@, mf.results@) > u128::MAX)
        })
}

/// Some record in the batch stops it fatally with `e`.
pub open spec fn some_game_fatal(dealer_seed: [u8; 16], games: Seq<GameInput>, e: Error) -> bool {
    exists|i: int| 0 <= i < games.len() && batch_fatal(dealer_seed, #[trigger] games[i], e)
}

/// Replay a batch of independent games against the shared dealer seed.
/// Commits to both seeds, re-verifies every signature under the strict
/// sequential nonce check, and replays every log on the same rules engine the
/// interactive service runs. An invalid game is reported with zero payout and
/// an audit hash of its raw log, and never affects its siblings; only a
/// malformed record or a wager overflow aborts the whole batch.
#[verifier::loop_isolation(false)]
pub fn verify_batch(dealer_seed: &[u8; 16], games: &Vec<GameInput>) -> (r: Result<
    BatchOutput,
    Error,
>)
    ensures
        ({
            match r {
                Ok(out) => {
                    &&& out.dealer_commitment@ == sha256_of(dealer_seed@)
                    &&& out.player_commitments@.len() == games@.len()
                    &&& out.player_pubkeys@.len() == games@.len()
                    &&& out.payouts@.len() == games@.len()
                    &&& out.double_hands@.len() == games@.len()
                    &&& out.split_hands@.len() == games@.len()
                    &&& out.action_hash@.len() == games@.len()
                    &&& out.terminated@.len() == games@.len()
                    &&& forall|i: int| 0 <= i < games@.len() ==> game_shape_ok(#[trigger] games@[i])
                    &&& forall|i: int|
                        0 <= i < games@.len() ==> (#[trigger] out.player_commitments@[i])@
                            == sha256_of(games@[i].player_seed@)
                    &&& forall|i: int|
                        0 <= i < games@.len() ==> (#[trigger] out.player_pubkeys@[i])@
                            == games@[i].pubkey@
                    &&& forall|i: int|
                        0 <= i < games@.len() && out.terminated@[i] ==> valid_game_record(
                            *dealer_seed,
                            #[trigger] games@[i],
                            out.payouts@[i],
                            out.double_hands@[i]@,
                            out.split_hands@[i]@,
                        ) && out.action_hash@[i]@ == zero_hash()
                    &&& forall|i: int|
                        0 <= i < games@.len() && !out.terminated@[i] ==> {
                            &&& invalid_game_record(*dealer_seed, #[trigger] games@[i])
                            &&& out.payouts@[i] == 0
                            &&& out.double_hands@[i]@.len() == 0
                            &&& out.split_hands@[i]@.len() == 0
                            &&& out.action_hash@[i]@ == sha256_of(
                                actions_wire(wire_views(games@[i].actions@)),
                            )
                        }
                },
                Err(e) => (e == Error::Overflow || e == Error::Malformed) && some_game_fatal(
                    *dealer_seed,
                    games@,
                    e,
                ),
            }
        }),
{
    let dealer_commitment = sha256(dealer_seed.as_slice());
    let mut player_commitments: Vec<[u8; 32]> = Vec::new();
    let mut player_pubkeys: Vec<Vec<u8>> = Vec::new();
    let mut payouts: Vec<u128> = Vec::new();
    let mut double_hands: Vec<Vec<u8>> = Vec::new();
    let mut split_hands: Vec<Vec<u8>> = Vec::new();
    let mut action_hash: Vec<[u8; 32]> = Vec::new();
    let mut terminated: Vec<bool> = Vec::new();
    let mut i: usize = 0;
    while i < games.len()
        invariant
            0 <= i <= games@.len(),
            player_commitments@.len() == i,
            player_pubkeys@.len() == i,
            payouts@.len() == i,
            double_hands@.len() == i,
            split_hands@.len() == i,
            action_hash@.len() == i,
            terminated@.len() == i,
            forall|k: int| 0 <= k < i ==> game_shape_ok(#[trigger] games@[k]),
            forall|k: int|
                0 <= k < i ==> (#[trigger] player_commitments@[k])@ == sha256_of(
                    games@[k].player_seed@,
                ),
            forall|k: int|
                0 <= k < i ==> (#[trigger] player_pubkeys@[k])@ == games@[k].pubkey@,
            forall|k: int|
                0 <= k < i && terminated@[k] ==> valid_game_record(
                    *dealer_seed,
                    #[trigger] games@[k],
                    payouts@[k],
                    double_hands@[k]@,
                    split_hands@[k]@,
                ),
            forall|k: int|
                0 <= k < i && terminated@[k] ==> (#[trigger] action_hash@[k])@ == zero_hash(),
            forall|k: int|
                0 <= k < i && !terminated@[k] ==> {
                    &&& invalid_game_record(*dealer_seed, #[trigger] games@[k])
                    &&& payouts@[k] == 0
                    &&& double_hands@[k]@.len() == 0
                    &&& split_hands@[k]@.len() == 0
                    &&& action_hash@[k]@ == sha256_of(
                        actions_wire(wire_views(games@[k].actions@)),
                    )
                },
        decreases games@.len() - i,
    {
        let g = &games[i];
        if g.actions.len() != g.signatures.len() {
            proof {
                reveal(batch_fatal);
                assert(batch_fatal(*dealer_seed, games@[i as int], Error::Malformed));
                assert(some_game_fatal(*dealer_seed, games@, Error::Malformed));
            }
            return Err(Error::Malformed);
        }
        if g.initial_hands as usize != g.bets.len() {
            proof {
                reveal(batch_fatal);
                assert(batch_fatal(*dealer_seed, games@[i as int], Error::Malformed));
                assert(some_game_fatal(*dealer_seed, games@, Error::Malformed));
            }
            return Err(Error::Malformed);
        }
        player_commitments.push(sha256(g.player_seed.as_slice()));
        player_pubkeys.push(crate::wire::copy_bytes(&g.pubkey));
        let mut m = match BlackjackStateMachine::new(
            *dealer_seed,
            g.player_seed,
            crate::wire::copy_bytes(&g.pubkey),
            crate::game::copy_vec(&g.bets),
        ) {
            Ok(m) => m,
            Err(e) => {
                proof {
                    reveal(batch_fatal);
                    assert(e == Error::Overflow);
                    assert(batch_fatal(*dealer_seed, games@[i as int], e));
                    assert(some_game_fatal(*dealer_seed, games@, e));
                }
                return Err(e);
            },
        };
        let ghost m0 = m;
        let ghost pairs = wire_pairs(g.actions@, g.signatures@);
        proof {
            assert(pairs.take(0) =~= Seq::<(WireActionV, Seq<u8>)>::empty());
            crate::game::lemma_input_replay_empty(m0);
        }
        let mut ok = true;
        let mut j: usize = 0;
        while j < g.actions.len() && ok
            invariant
                0 <= i < games@.len(),
                0 <= j <= games@[i as int].actions@.len(),
                g == &games@[i as int],
                games@[i as int].actions@.len() == games@[i as int].signatures@.len(),
                pairs == wire_pairs(games@[i as int].actions@, games@[i as int].signatures@),
                m.wf(),
                new_machine(
                    *dealer_seed,
                    games@[i as int].player_seed,
                    games@[i as int].pubkey@,
                    games@[i as int].bets@,
                    m0,
                ),
                ok ==> input_replay_to(m0, pairs.take(j as int), m),
                !ok ==> invalid_game_record(*dealer_seed, games@[i as int]),
            decreases games@[i as int].actions@.len() - j,
        {
            let a = copy_wire_action(&g.actions[j]);
            let sig = g.signatures[j];
            let ghost mpre = m;
            let res = m.try_input(a, &sig);
            proof {
                assert(pairs[j as int] == (games@[i as int].actions@[j as int]@, games@[i as int].signatures@[j as int]@));
            }
            match res {
                Ok(()) => {
                    proof {
                        assert(pairs.take(j + 1) =~= pairs.take(j as int).push(pairs[j as int]));
                        crate::game::lemma_input_replay_snoc(
                            m0,
                            pairs.take(j as int),
                            mpre,
                            pairs[j as int],
                            m,
                        );
                    }
                },
                Err(e) => {
                    match e {
                        Error::Overflow | Error::Malformed => {
                            proof {
                                reveal(batch_fatal);
                                assert(input_spec(
                                    mpre,
                                    pairs[j as int].0,
                                    pairs[j as int].1,
                                    mpre,
                                    Err(e),
                                ));
                                assert(input_replay_to(m0, pairs.take(j as int), mpre));
                                assert(batch_fatal(*dealer_seed, games@[i as int], e));
                                assert(some_game_fatal(*dealer_seed, games@, e));
                            }
                            return Err(e);
                        },
                        _ => {
                            ok = false;
                            proof {
                                reveal(invalid_game_record);
                                assert(input_spec(mpre, pairs[j as int].0, pairs[j as int].1, mpre, Err(e)));
                                assert(input_replay_rejects(mpre, pairs[j as int]));
                                assert(invalid_game_record(*dealer_seed, games@[i as int]));
                            }
                        },
                    }
                },
            }
            j = j + 1;
        }
        if ok && m.terminated() {
            let payout = match eval_payout(&m.base_bets, &m.results) {
                Some(p) => p,
                None => {
                    proof {
                        reveal(batch_fatal);
                        assert(pairs.take(j as int) =~= pairs);
                        assert(game_replayed(*dealer_seed, games@[i as int], m));
                        assert(batch_fatal(*dealer_seed, games@[i as int], Error::Overflow));
                        assert(some_game_fatal(*dealer_seed, games@, Error::Overflow));
                    }
                    return Err(Error::Overflow);
                },
            };
            payouts.push(payout);
            double_hands.push(crate::wire::copy_bytes(&m.doubles));
            split_hands.push(crate::wire::copy_bytes(&m.splits));
            let zh: [u8; 32] = [0u8; 32];
            action_hash.push(zh);
            terminated.push(true);
            proof {
                reveal(valid_game_record);
                assert(pairs.take(j as int) =~= pairs);
                assert(game_replayed(*dealer_seed, games@[i as int], m));
                assert(zh@ =~= zero_hash());
                assert(terminated@[i as int]);
                assert(payouts@[i as int] == payout);
                assert(double_hands@[i as int]@ == m.doubles@);
                assert(split_hands@[i as int]@ == m.splits@);
                assert(action_hash@[i as int]@ == zero_hash());
                assert(valid_game_record(
                    *dealer_seed,
                    games@[i as int],
                    payouts@[i as int],
                    double_hands@[i as int]@,
                    split_hands@[i as int]@,
                ));
            }
        } else {
            if ok {
                proof {
                    reveal(invalid_game_record);
                    assert(pairs.take(j as int) =~= pairs.take(pairs.len() as int));
                    assert(invalid_game_record(*dealer_seed, games@[i as int]));
                }
            }
            payouts.push(0);
            double_hands.push(Vec::new());
            split_hands.push(Vec::new());
            let enc = crate::wire::abi_encode_actions(&g.actions);
            action_hash.push(sha256(enc.as_slice()));
            terminated.push(false);
        }
        i = i + 1;
    }
    Ok(
        BatchOutput {
            dealer_commitment,
            player_commitments,
            player_pubkeys,
            payouts,
            double_hands,
            split_hands,
            action_hash,
            terminated,
        },
    )
}

} // verus!
