use alloy_sol_types::{sol_data, SolType};
use blackjack_core::batch::{run_blackjack, verify_batch};
use blackjack_core::game::{BlackjackStateMachine, Error, GameInput};
use blackjack_core::wire::{Action, ActionType, WireAction};
use k256::ecdsa::signature::Signer;
use k256::ecdsa::{Signature, SigningKey, VerifyingKey};
use sha2::Digest;

type ActionTuple = (
    sol_data::Uint<8>,
    sol_data::Uint<8>,
    sol_data::Uint<8>,
    sol_data::Array<sol_data::Uint<8>>,
    sol_data::Array<sol_data::Uint<8>>,
);

fn encode_action(a: &WireAction) -> Vec<u8> {
    <ActionTuple as SolType>::abi_encode(&(
        a.nonce,
        a.hand_id,
        a.kind,
        a.my_cards.clone(),
        a.dealer_cards.clone(),
    ))
}

fn sign_wire(sk: &SigningKey, a: &WireAction) -> [u8; 64] {
    let sig: Signature = sk.sign(&encode_action(a));
    sig.to_bytes().as_slice().try_into().unwrap()
}

fn keypair() -> (SigningKey, Vec<u8>) {
    let sk = SigningKey::random(&mut rand::thread_rng());
    let vk = VerifyingKey::from(&sk).to_encoded_point(false).as_bytes().to_vec();
    (sk, vk)
}

/// Play one game to termination with a single signed stand, and hand back its
/// record together with the winnings the interactive machine settled.
fn stood_game(dealer_seed: [u8; 16], player_seed: [u8; 16], sk: &SigningKey, vk: &[u8]) -> (
    GameInput,
    u128,
) {
    let mut m =
        BlackjackStateMachine::new(dealer_seed, player_seed, vk.to_vec(), vec![100]).unwrap();
    if m.terminated() {
        let w = m.winnings[0];
        return (m.extract().unwrap(), w);
    }
    let a = WireAction {
        nonce: 0,
        hand_id: 0,
        kind: 1,
        my_cards: m.player_hands[0].clone(),
        dealer_cards: m.dealer_hand.clone(),
    };
    let sig = sign_wire(sk, &a);
    assert_eq!(m.try_input(a, &sig), Ok(()));
    assert!(m.terminated());
    let w = m.winnings[0];
    (m.extract().unwrap(), w)
}

#[test]
fn test_correct_game() {
    let sk = SigningKey::random(&mut rand::thread_rng());
    let vk = VerifyingKey::from(&sk).to_encoded_point(false).to_bytes();
    let action = WireAction {
        nonce: 0,
        hand_id: 0,
        kind: 2,
        my_cards: vec![2, 9],
        dealer_cards: vec![10, 4],
    };
    let signature = sign_wire(&sk, &action);
    let game = GameInput {
        player_seed: [1u8; 16],
        pubkey: vk.to_vec(),
        initial_hands: 1,
        bets: vec![100],
        actions: vec![action],
        signatures: vec![signature],
    };
    let out = verify_batch(&[0u8; 16], &vec![game]).unwrap();
    assert_eq!(out.payouts[0], 0);
    assert_eq!(out.terminated[0], true);
}

#[test]
fn interactive_and_batch_agree_on_stand() {
    let (sk, vk) = keypair();
    let dealer_seed = [0u8; 16];
    let mut player_seed = [0u8; 16];
    player_seed[0] = 1;
    let (game, winnings) = stood_game(dealer_seed, player_seed, &sk, &vk);
    assert!([0u128, 100, 200, 250].contains(&winnings));
    let out = verify_batch(&dealer_seed, &vec![game]).unwrap();
    assert_eq!(out.terminated[0], true);
    assert_eq!(out.payouts[0], winnings);
}

#[test]
fn bad_signature_invalidates_only_its_game() {
    let (sk, vk) = keypair();
    let dealer_seed = [5u8; 16];
    let mut seeds = [[0u8; 16]; 3];
    for (i, s) in seeds.iter_mut().enumerate() {
        s[0] = i as u8 + 1;
    }
    let (g1, w1) = stood_game(dealer_seed, seeds[0], &sk, &vk);
    let (mut g2, _) = stood_game(dealer_seed, seeds[1], &sk, &vk);
    let (g3, w3) = stood_game(dealer_seed, seeds[2], &sk, &vk);
    if !g2.signatures.is_empty() {
        g2.signatures[0][7] ^= 0x20;
    } else {
        // the hand ended at the deal; force an unverifiable log instead
        g2.actions.push(WireAction {
            nonce: 0,
            hand_id: 0,
            kind: 1,
            my_cards: vec![],
            dealer_cards: vec![],
        });
        g2.signatures.push([0u8; 64]);
    }
    let games = vec![g1, g2, g3];
    let out = verify_batch(&dealer_seed, &games).unwrap();
    assert_eq!(out.terminated, vec![true, false, true]);
    assert_eq!(out.payouts[0], w1);
    assert_eq!(out.payouts[1], 0);
    assert_eq!(out.payouts[2], w3);
    assert!(out.double_hands[1].is_empty());
    assert_eq!(out.action_hash[0], [0u8; 32]);
    // the audit hash is the digest of the raw log's canonical encoding
    let tuples: Vec<(u8, u8, u8, Vec<u8>, Vec<u8>)> = games[1]
        .actions
        .iter()
        .map(|a| (a.nonce, a.hand_id, a.kind, a.my_cards.clone(), a.dealer_cards.clone()))
        .collect();
    let log_bytes = <sol_data::Array<ActionTuple> as SolType>::abi_encode(&tuples);
    let expected: [u8; 32] = sha2::Sha256::digest(&log_bytes).into();
    assert_eq!(out.action_hash[1], expected);
    assert_ne!(out.action_hash[1], [0u8; 32]);
}

#[test]
fn commitments_are_digests_of_the_seeds() {
    let (sk, vk) = keypair();
    let dealer_seed = [2u8; 16];
    let mut player_seed = [0u8; 16];
    player_seed[0] = 9;
    let (game, _) = stood_game(dealer_seed, player_seed, &sk, &vk);
    let out = verify_batch(&dealer_seed, &vec![game]).unwrap();
    let expected_dealer: [u8; 32] = sha2::Sha256::digest(dealer_seed).into();
    let expected_player: [u8; 32] = sha2::Sha256::digest(player_seed).into();
    assert_eq!(out.dealer_commitment, expected_dealer);
    assert_eq!(out.player_commitments[0], expected_player);
    assert_ne!(&out.dealer_commitment[..16], &dealer_seed[..]);
    assert_eq!(out.player_pubkeys[0], vk);
}

#[test]
fn run_blackjack_replays_an_action_log() {
    let (sk, vk) = keypair();
    let dealer_seed = [0u8; 16];
    let mut player_seed = [0u8; 16];
    player_seed[0] = 1;
    let (game, winnings) = stood_game(dealer_seed, player_seed, &sk, &vk);
    let actions: Vec<Action> = game
        .actions
        .iter()
        .map(|w| Action {
            hand_id: w.hand_id,
            inner: match w.kind {
                0 => ActionType::Hit,
                1 => ActionType::Stand,
                2 => ActionType::Double,
                _ => ActionType::Split,
            },
            my_cards: w.my_cards.clone(),
            dealer_cards: w.dealer_cards.clone(),
        })
        .collect();
    let (results, doubles, splits) =
        run_blackjack(dealer_seed, player_seed, 1, actions).unwrap();
    assert_eq!(results.len(), 1);
    assert!(doubles.is_empty());
    assert!(splits.is_empty());
    assert_eq!(
        blackjack_core::payout::eval_payout(&game.bets, &results),
        Some(winnings)
    );
}

fn wire_for(m: &BlackjackStateMachine, nonce: u8, hand_id: u8, kind: u8) -> WireAction {
    WireAction {
        nonce,
        hand_id,
        kind,
        my_cards: m.player_hands[hand_id as usize].clone(),
        dealer_cards: m.dealer_hand.clone(),
    }
}

#[test]
fn hit_then_stand_agrees_with_batch() {
    let (sk, vk) = keypair();
    let dealer_seed = [11u8; 16];
    // a seed whose single hand is still in play after the deal
    let mut player_seed = [0u8; 16];
    for b in 0u8..=255 {
        player_seed[0] = b;
        let m = BlackjackStateMachine::new(dealer_seed, player_seed, vk.clone(), vec![100])
            .unwrap();
        if m.hands_active[0] {
            break;
        }
    }
    let mut m =
        BlackjackStateMachine::new(dealer_seed, player_seed, vk.clone(), vec![100]).unwrap();
    let hit = wire_for(&m, 0, 0, 0);
    let sig = sign_wire(&sk, &hit);
    assert_eq!(m.try_input(hit, &sig), Ok(()));
    assert_eq!(m.player_hands[0].len(), 3);
    if !m.terminated() {
        let stand = wire_for(&m, 1, 0, 1);
        let sig2 = sign_wire(&sk, &stand);
        assert_eq!(m.try_input(stand, &sig2), Ok(()));
    }
    assert!(m.terminated());
    let winnings = m.winnings[0];
    let game = m.extract().unwrap();
    let out = verify_batch(&dealer_seed, &vec![game]).unwrap();
    assert_eq!(out.terminated[0], true);
    assert_eq!(out.payouts[0], winnings);
}

#[test]
fn split_game_settles_both_hands() {
    let (sk, vk) = keypair();
    let dealer_seed = [0u8; 16];
    // a seed whose single hand is a live equal-rank pair
    let mut found = None;
    'outer: for b in 0u8..=255 {
        for b2 in 0u8..=3 {
            let mut s = [0u8; 16];
            s[0] = b;
            s[1] = b2;
            let m = BlackjackStateMachine::new(dealer_seed, s, vk.clone(), vec![100]).unwrap();
            if m.hands_active[0] && m.player_hands[0][0] == m.player_hands[0][1] {
                found = Some(s);
                break 'outer;
            }
        }
    }
    let player_seed = found.expect("no pair seed");
    let mut m =
        BlackjackStateMachine::new(dealer_seed, player_seed, vk.clone(), vec![100]).unwrap();
    let split = wire_for(&m, 0, 0, 3);
    let sig = sign_wire(&sk, &split);
    assert_eq!(m.try_input(split, &sig), Ok(()));
    assert_eq!(m.player_hands.len(), 2);
    let mut nonce = 1u8;
    for hand in 0u8..2 {
        if m.hands_active[hand as usize] {
            let stand = wire_for(&m, nonce, hand, 1);
            let sig_n = sign_wire(&sk, &stand);
            assert_eq!(m.try_input(stand, &sig_n), Ok(()));
            nonce += 1;
        }
    }
    assert!(m.terminated());
    let total = m.winnings.iter().sum::<u128>();
    let game = m.extract().unwrap();
    assert_eq!(game.initial_hands, 1);
    let out = verify_batch(&dealer_seed, &vec![game]).unwrap();
    assert_eq!(out.terminated[0], true);
    assert_eq!(out.payouts[0], total);
    assert_eq!(out.split_hands[0], vec![0]);
    assert!(out.double_hands[0].is_empty());
}

#[test]
fn incomplete_log_invalidates_the_game() {
    let (sk, vk) = keypair();
    let dealer_seed = [8u8; 16];
    let mut player_seed = [0u8; 16];
    player_seed[0] = 4;
    let (game, _) = stood_game(dealer_seed, player_seed, &sk, &vk);
    let mut truncated = game;
    truncated.actions.clear();
    truncated.signatures.clear();
    let out = verify_batch(&dealer_seed, &vec![truncated]).unwrap();
    // either the deal already ended the game, or the empty log leaves it open
    if !out.terminated[0] {
        assert_eq!(out.payouts[0], 0);
    }
}

#[test]
fn malformed_records_abort_the_batch() {
    let (sk, vk) = keypair();
    let dealer_seed = [3u8; 16];
    let mut player_seed = [0u8; 16];
    player_seed[0] = 6;
    let (game, _) = stood_game(dealer_seed, player_seed, &sk, &vk);
    let mut missing_sig = game;
    missing_sig.signatures.clear();
    if missing_sig.actions.is_empty() {
        missing_sig.actions.push(WireAction {
            nonce: 0,
            hand_id: 0,
            kind: 1,
            my_cards: vec![],
            dealer_cards: vec![],
        });
    }
    assert!(matches!(verify_batch(&dealer_seed, &vec![missing_sig]), Err(Error::Malformed)));

    let (game2, _) = stood_game(dealer_seed, player_seed, &sk, &vk);
    let mut wrong_count = game2;
    wrong_count.initial_hands = 2;
    assert!(matches!(verify_batch(&dealer_seed, &vec![wrong_count]), Err(Error::Malformed)));
}
